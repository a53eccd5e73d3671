//! The solver: context footprints and reachability.

use crate::domain::edge::EdgeKind;
use crate::domain::graph::{ContextGraph, NodeIndex};
use crate::domain::node::{ContextFragment, ContextFragmentId, Mutability, Node, NodeId};
use crate::domain::policy::{
    BoundaryDecision, BoundaryPolicy, PruningDecision, PruningParams, ReasoningMode,
    ReasoningRelation, SyntacticBoundaryPolicy,
};
use crate::domain::sort;
use crate::domain::symbol_table::SymbolTable;
use crate::domain::text;
use crate::domain::traversal;
use crate::domain::traversal::{Arrival, Charge, Move, Progress, Walk};
use crate::domain::type_closure;
use crate::domain::type_registry::TypeRegistry;
use std::collections::{HashMap, HashSet, VecDeque};
use std::sync::Arc;
use vstd::prelude::*;

pub use crate::domain::reachability::{ReachabilityOptions, ReachabilityResult};
pub use crate::domain::traversal::{BoundaryStop, Direction, ReasoningState};

verus! {

/// The fragments in a table, with their sizes, in order.
pub open spec fn charges_of(table: SymbolTable<u32>) -> Seq<Charge> {
    table.symbols().map_values(|id: Seq<char>| Charge { id, size: table@[id] as nat })
}

/// The list of fragments and the table hold the same fragments.
proof fn lemma_charges_of(table: SymbolTable<u32>)
    requires
        table.wf(),
    ensures
        forall|id: Seq<char>| #[trigger]
            traversal::charged(charges_of(table), id) <==> table@.contains_key(id),
{
    table.lemma_symbols();
    let list = charges_of(table);
    assert forall|id: Seq<char>| #[trigger]
        traversal::charged(list, id) implies table@.contains_key(id) by {
        let i = choose|i: int| 0 <= i < list.len() && (#[trigger] list[i]).id == id;
        assert(table.symbols()[i] == id);
    }
    assert forall|id: Seq<char>| table@.contains_key(id) implies #[trigger] traversal::charged(
        list,
        id,
    ) by {
        let i = choose|i: int| 0 <= i < table.symbols().len() && table.symbols()[i] == id;
        assert(list[i].id == id);
    }
}

/// A sum of sizes is bounded by their number.
proof fn lemma_total_bound(list: Seq<Charge>)
    requires
        forall|i: int| 0 <= i < list.len() ==> (#[trigger] list[i]).size <= u32::MAX,
    ensures
        traversal::total(list) <= list.len() * u32::MAX,
    decreases list.len(),
{
    if list.len() > 0 {
        let rest = list.drop_last();
        assert(forall|i: int| 0 <= i < rest.len() ==> rest[i] == list[i]);
        lemma_total_bound(rest);
        assert(list.last() == list[list.len() - 1]);
        assert((rest.len() + 1) * u32::MAX == rest.len() * u32::MAX + u32::MAX)
            by (nonlinear_arith);
    }
}

/// What is left of a list is no more than the list.
proof fn lemma_beyond_total(list: Seq<Charge>, other: Seq<Charge>)
    ensures
        traversal::total(traversal::beyond(list, other)) <= traversal::total(list),
    decreases list.len(),
{
    if list.len() > 0 {
        lemma_beyond_total(list.drop_last(), other);
        let rest = traversal::beyond(list.drop_last(), other);
        assert(rest.push(list.last()).drop_last() =~= rest);
    }
}

/// The sizes in a table have a sum far below what a double machine word holds.
proof fn lemma_charges_bound(table: SymbolTable<u32>)
    requires
        table.wf(),
    ensures
        traversal::total(charges_of(table)) < 0x1_0000_0000_0000_0000_0000_0000,
{
    lemma_total_bound(charges_of(table));
    table.lemma_len();
    let n = charges_of(table).len();
    assert(n * u32::MAX < 0x1_0000_0000_0000_0000_0000_0000) by (nonlinear_arith)
        requires
            n <= 0xffff_ffff_ffff_ffff,
    ;
}

/// A traversal in one direction.
pub struct DirectionalTraversal<'a> {
    direction: Direction,
    max_tokens: Option<u32>,
    prepaid: &'a SymbolTable<u32>,
    /// Sizes of all fragments that were paid for, also those prepaid.
    spent: u128,
    fragments: SymbolTable<u32>,
    queue: VecDeque<ReasoningState>,
    visited_states: HashSet<u64>,
    nodes: Vec<NodeIndex>,
    seen_nodes: HashSet<u32>,
    /// How each node was first reached.
    arrivals: HashMap<u32, Option<Arrival>>,
    boundary_stops: Vec<BoundaryStop>,
    unresolved_states: Vec<ReasoningState>,
    truncated: bool,
}

impl<'a> DirectionalTraversal<'a> {
    pub closed spec fn progress(&self) -> Progress {
        Progress {
            queue: self.queue@,
            visited: Set::new(
                |state: ReasoningState|
                    state.direction == self.direction && self.visited_states@.contains(
                        traversal::state_code(state) as u64,
                    ),
            ),
            nodes: self.nodes@,
            reached: Map::new(
                |idx: NodeIndex| self.arrivals@.contains_key(idx.ix),
                |idx: NodeIndex| self.arrivals@[idx.ix],
            ),
            fragments: charges_of(self.fragments),
            stops: self.boundary_stops@,
            unresolved: self.unresolved_states@,
            truncated: self.truncated,
        }
    }

    pub closed spec fn wf(&self) -> bool {
        &&& self.fragments.wf()
        &&& self.prepaid.wf()
        &&& self.spent == traversal::total(charges_of(*self.prepaid)) + traversal::total(
            traversal::beyond(charges_of(self.fragments), charges_of(*self.prepaid)),
        )
        &&& forall|x: u32|
            #![trigger self.seen_nodes@.contains(x)]
            self.seen_nodes@.contains(x) <==> self.nodes@.contains(NodeIndex { ix: x })
    }

    /// The walk that this traversal takes.
    pub closed spec fn walk<P: BoundaryPolicy>(&self, graph: ContextGraph, policy: P) -> Walk<P> {
        Walk {
            graph,
            policy,
            direction: self.direction,
            limit: self.max_tokens,
            prepaid: charges_of(*self.prepaid),
        }
    }

    /// Whether two traversals go the same way under the same limit.
    spec fn same_settings(&self, other: DirectionalTraversal) -> bool {
        &&& self.direction == other.direction
        &&& self.max_tokens == other.max_tokens
        &&& self.prepaid == other.prepaid
    }

    /// Charges a fragment for a state. Returns whether the limit allowed it.
    fn add_fragment_with_limit<P: BoundaryPolicy>(
        &mut self,
        fragment: &ContextFragment,
        state: ReasoningState,
        Ghost(graph): Ghost<ContextGraph>,
        Ghost(policy): Ghost<P>,
    ) -> (r: bool)
        requires
            old(self).wf(),
            !old(self).truncated,
        ensures
            final(self).wf(),
            final(self).walk(graph, policy) == old(self).walk(graph, policy),
            final(self).progress() == old(self).walk(graph, policy).charge(
                old(self).progress(),
                traversal::charge_of(*fragment),
                state,
            ),
            r == !final(self).progress().truncated,
    {
        let ghost before = self.progress();
        let ghost walk = self.walk(graph, policy);
        let ghost charge = traversal::charge_of(*fragment);
        proof {
            lemma_charges_of(self.fragments);
            lemma_charges_of(*self.prepaid);
        }
        if self.fragments.contains_key(fragment.id.as_str()) {
            return true;
        }
        let is_prepaid = self.prepaid.contains_key(fragment.id.as_str());
        proof {
            lemma_charges_bound(self.fragments);
            lemma_charges_bound(*self.prepaid);
            lemma_beyond_total(charges_of(self.fragments), charges_of(*self.prepaid));
        }
        let sum: u128 = self.spent + fragment.context_size as u128;
        if !is_prepaid {
            if let Some(limit) = self.max_tokens {
                let held: u128 = if sum <= u32::MAX as u128 {
                    sum
                } else {
                    u32::MAX as u128
                };
                if held > limit as u128 {
                    self.truncated = true;
                    self.unresolved_states.push(state);
                    assert(self.progress() == walk.charge(before, charge, state));
                    return false;
                }
            }
            self.spent = sum;
        }
        let ghost old_table = self.fragments;
        self.fragments.insert(fragment.id.clone(), fragment.context_size);
        proof {
            old_table.lemma_symbols();
            let list = charges_of(self.fragments);
            assert(list =~= before.fragments.push(charge)) by {
                assert forall|i: int| 0 <= i < list.len() implies #[trigger] list[i]
                    == before.fragments.push(charge)[i] by {
                    if i < old_table.symbols().len() {
                        assert(old_table@.contains_key(old_table.symbols()[i]));
                    }
                }
            }
            assert(list.drop_last() =~= before.fragments);
            let rest = traversal::beyond(before.fragments, walk.prepaid);
            assert(rest.push(charge).drop_last() =~= rest);
            assert(self.progress() == walk.charge(before, charge, state));
        }
        true
    }
}

impl<'a> DirectionalTraversal<'a> {
    /// Puts a state in the queue, and remembers how its node was first reached.
    fn push_state(&mut self, state: ReasoningState, arrival: Arrival)
        requires
            old(self).wf(),
        ensures
            final(self).wf(),
            final(self).same_settings(*old(self)),
            final(self).progress() == (Progress {
                queue: old(self).progress().queue.push(state),
                reached: if old(self).progress().reached.contains_key(state.node_index) {
                    old(self).progress().reached
                } else {
                    old(self).progress().reached.insert(state.node_index, Some(arrival))
                },
                ..old(self).progress()
            }),
    {
        let ghost before = self.progress();
        if !self.arrivals.contains_key(&state.node_index.ix) {
            self.arrivals.insert(state.node_index.ix, Some(arrival));
        }
        self.queue.push_back(state);
        assert(self.progress().visited =~= before.visited);
        assert(NodeIndex { ix: state.node_index.ix } == state.node_index);
        assert(self.progress().reached =~= if before.reached.contains_key(state.node_index) {
            before.reached
        } else {
            before.reached.insert(state.node_index, Some(arrival))
        });
    }
}

impl<'a> DirectionalTraversal<'a> {
    /// The fragments that were charged, in lexicographic order.
    pub fn sorted_fragment_ids(&self) -> (r: Vec<ContextFragmentId>)
        requires
            self.wf(),
        ensures
            text::texts(r@) == sort::sorted_texts(charge_ids(self.progress().fragments)),
            r@.len() == self.progress().fragments.len(),
    {
        assert(charge_ids(charges_of(self.fragments)) =~= self.fragments.symbols());
        self.fragments.sorted_symbols()
    }
}

/// The kind of edge that a relation follows, in one direction or the other.
fn relation_edge(relation: ReasoningRelation) -> (r: EdgeKind)
    ensures
        r == traversal::relation_edge(relation),
{
    match relation {
        ReasoningRelation::Call | ReasoningRelation::UsageEvidence => EdgeKind::Call,
        ReasoningRelation::Read | ReasoningRelation::ObservedBy => EdgeKind::Read,
        ReasoningRelation::Write | ReasoningRelation::ValueProvenance => EdgeKind::Write,
        ReasoningRelation::Annotates => EdgeKind::Annotates,
        ReasoningRelation::DynamicDispatch
        | ReasoningRelation::ParentContract
        | ReasoningRelation::ChildImplementationEvidence => EdgeKind::OverriddenBy,
    }
}

/// The number of a state.
fn state_number(state: ReasoningState) -> (r: u64)
    ensures
        r == traversal::state_code(state),
{
    let mode: u64 = match state.reasoning_mode {
        ReasoningMode::NeedSurface => 0,
        ReasoningMode::NeedBehavior => 1,
        ReasoningMode::NeedValueProvenance => 2,
        ReasoningMode::NeedUsageEvidence => 3,
        ReasoningMode::NeedContractEvidence => 4,
        ReasoningMode::NeedImplementation => 5,
        ReasoningMode::NeedParentUsage => 6,
    };
    state.node_index.ix as u64 * 8 + mode
}

/// Computes context footprints of nodes of a graph under a boundary policy.
pub struct CfSolver<P: BoundaryPolicy> {
    pub graph: Arc<ContextGraph>,
    pub params: PruningParams,
    pub boundary_policy: Arc<P>,
}

impl CfSolver<SyntacticBoundaryPolicy> {
    /// A solver with the syntactic policy of the given parameters.
    pub fn new(graph: Arc<ContextGraph>, params: PruningParams) -> (r: Self)
        ensures
            r.graph == graph,
            r.params == params,
            r.boundary_policy.params == params,
    {
        CfSolver { graph, params, boundary_policy: Arc::new(SyntacticBoundaryPolicy::new(params)) }
    }
}

/// Makes moves of two lists, one after the other.
proof fn lemma_make_moves_add<P: BoundaryPolicy>(
    walk: Walk<P>,
    progress: Progress,
    state: ReasoningState,
    a: Seq<Move>,
    b: Seq<Move>,
)
    ensures
        walk.make_moves(progress, state, a + b) == walk.make_moves(
            walk.make_moves(progress, state, a),
            state,
            b,
        ),
    decreases b.len(),
{
    if b.len() == 0 {
        assert(a + b =~= a);
    } else {
        lemma_make_moves_add(walk, progress, state, a, b.drop_last());
        assert((a + b).drop_last() =~= a + b.drop_last());
    }
}

impl<P: BoundaryPolicy> CfSolver<P> {
    pub fn with_policy(
        graph: Arc<ContextGraph>,
        params: PruningParams,
        boundary_policy: Arc<P>,
    ) -> (r: Self)
        ensures
            r.graph == graph,
            r.params == params,
            r.boundary_policy == boundary_policy,
    {
        CfSolver { graph, params, boundary_policy }
    }

    /// The graph that footprints are computed on.
    pub open spec fn context(&self) -> ContextGraph {
        *self.graph
    }

    /// The policy that decides where to stop.
    pub open spec fn policy(&self) -> P {
        *self.boundary_policy
    }

    /// The walk that a traversal of this solver takes.
    pub open spec fn walk_of(&self, t: DirectionalTraversal) -> Walk<P> {
        t.walk(*self.graph, *self.boundary_policy)
    }

    /// Follows a relation to a target, as far as the policy allows.
    fn enqueue_target(
        &self,
        t: &mut DirectionalTraversal,
        source_state: ReasoningState,
        target_index: NodeIndex,
        relation: ReasoningRelation,
        enter_mode: ReasoningMode,
    )
        requires
            self.graph.wf(),
            self.graph.has(source_state.node_index),
            self.graph.has(target_index),
            old(t).wf(),
        ensures
            final(t).wf(),
            self.walk_of(*final(t)) == self.walk_of(*old(t)),
            final(t).progress() == self.walk_of(*old(t)).make_move(
                old(t).progress(),
                source_state,
                Move::Follow { target: target_index, relation, enter_mode },
            ),
    {
        let ghost before = t.progress();
        let ghost step = Move::Follow { target: target_index, relation, enter_mode };
        let ghost walk = self.walk_of(*t);
        let stops = self.stops(t, source_state, target_index, relation);
        if stops && relation != ReasoningRelation::Write && relation
            != ReasoningRelation::ParentContract {
            let target = self.graph.node(target_index);
            if !target.node_core().is_external {
                t.boundary_stops.push(
                    BoundaryStop {
                        source: self.graph.node(source_state.node_index).node_core().id,
                        target: target.node_core().id,
                        direction: source_state.direction,
                        relation,
                    },
                );
            }
        }
        let ghost middle = t.progress();
        assert(middle.reached =~= before.reached);
        assert(middle.visited =~= before.visited);
        t.push_state(
            ReasoningState {
                node_index: target_index,
                direction: source_state.direction,
                reasoning_mode: if stops {
                    ReasoningMode::NeedSurface
                } else {
                    enter_mode
                },
            },
            Arrival {
                edge_kind: relation_edge(relation),
                decision: if stops {
                    PruningDecision::Boundary
                } else {
                    PruningDecision::Transparent
                },
            },
        );
        assert(t.progress() == walk.make_move(before, source_state, step));
    }

    /// Enters a target in a further mode, if the policy allows it.
    fn enqueue_besides(
        &self,
        t: &mut DirectionalTraversal,
        source_state: ReasoningState,
        target_index: NodeIndex,
        relation: ReasoningRelation,
        enter_mode: ReasoningMode,
    )
        requires
            self.graph.wf(),
            self.graph.has(source_state.node_index),
            self.graph.has(target_index),
            old(t).wf(),
        ensures
            final(t).wf(),
            self.walk_of(*final(t)) == self.walk_of(*old(t)),
            final(t).progress() == self.walk_of(*old(t)).make_move(
                old(t).progress(),
                source_state,
                Move::Besides { target: target_index, relation, enter_mode },
            ),
    {
        let ghost before = t.progress();
        let ghost step = Move::Besides { target: target_index, relation, enter_mode };
        let ghost walk = self.walk_of(*t);
        if !self.stops(t, source_state, target_index, relation) {
            t.push_state(
                ReasoningState {
                    node_index: target_index,
                    direction: source_state.direction,
                    reasoning_mode: enter_mode,
                },
                Arrival {
                    edge_kind: relation_edge(relation),
                    decision: PruningDecision::Transparent,
                },
            );
        }
        assert(t.progress() == walk.make_move(before, source_state, step));
    }

    /// Whether following a relation from a state stops at the surface of the target.
    fn stops(
        &self,
        t: &DirectionalTraversal,
        source_state: ReasoningState,
        target_index: NodeIndex,
        relation: ReasoningRelation,
    ) -> (r: bool)
        requires
            self.graph.wf(),
            self.graph.has(source_state.node_index),
            self.graph.has(target_index),
        ensures
            r == self.walk_of(*t).stops(source_state, target_index, relation),
    {
        let target = self.graph.node(target_index);
        if target.node_core().is_external {
            return true;
        }
        match relation {
            ReasoningRelation::Write | ReasoningRelation::ParentContract => true,
            ReasoningRelation::Read => match target {
                Node::Variable(variable) => variable.mutability != Mutability::Mutable,
                Node::Function(_) => self.policy_stops(source_state, target_index, relation),
            },
            ReasoningRelation::UsageEvidence
            | ReasoningRelation::ChildImplementationEvidence
            | ReasoningRelation::ObservedBy => false,
            ReasoningRelation::Call
            | ReasoningRelation::Annotates
            | ReasoningRelation::DynamicDispatch
            | ReasoningRelation::ValueProvenance => self.policy_stops(
                source_state,
                target_index,
                relation,
            ),
        }
    }

    /// Whether the policy stops when a relation is followed from a state.
    fn policy_stops(
        &self,
        source_state: ReasoningState,
        target_index: NodeIndex,
        relation: ReasoningRelation,
    ) -> (r: bool)
        requires
            self.graph.wf(),
            self.graph.has(source_state.node_index),
            self.graph.has(target_index),
        ensures
            r == (self.boundary_policy.decision(
                source_state.reasoning_mode,
                relation,
                self.graph.at(source_state.node_index),
                self.graph.at(target_index),
                self.graph.type_registry,
            ) == BoundaryDecision::StopAtSurface),
    {
        let decision = self.boundary_policy.evaluate(
            source_state.reasoning_mode,
            relation,
            self.graph.node(source_state.node_index),
            self.graph.node(target_index),
            &self.graph.type_registry,
        );
        match decision {
            BoundaryDecision::StopAtSurface => true,
            BoundaryDecision::EnterImplementation | BoundaryDecision::Unknown => false,
        }
    }

    /// Follows one relation along each edge of a list.
    fn enqueue_each(
        &self,
        t: &mut DirectionalTraversal,
        state: ReasoningState,
        edges: &Vec<(NodeIndex, EdgeKind)>,
        relation: ReasoningRelation,
        enter_mode: ReasoningMode,
    )
        requires
            self.graph.wf(),
            self.graph.has(state.node_index),
            forall|k: int| 0 <= k < edges@.len() ==> self.graph.has((#[trigger] edges@[k]).0),
            old(t).wf(),
        ensures
            final(t).wf(),
            self.walk_of(*final(t)) == self.walk_of(*old(t)),
            final(t).progress() == self.walk_of(*old(t)).make_moves(
                old(t).progress(),
                state,
                traversal::follow_each(edges@, relation, enter_mode),
            ),
    {
        let ghost walk = self.walk_of(*t);
        let ghost before = t.progress();
        let ghost steps = traversal::follow_each(edges@, relation, enter_mode);
        let mut i: usize = 0;
        assert(steps.take(0) =~= Seq::empty());
        while i < edges.len()
            invariant
                self.graph.wf(),
                self.graph.has(state.node_index),
                forall|k: int| 0 <= k < edges@.len() ==> self.graph.has((#[trigger] edges@[k]).0),
                t.wf(),
                self.walk_of(*t) == walk,
                steps == traversal::follow_each(edges@, relation, enter_mode),
                i <= edges@.len(),
                t.progress() == walk.make_moves(before, state, steps.take(i as int)),
            decreases edges@.len() - i,
        {
            self.enqueue_target(t, state, edges[i].0, relation, enter_mode);
            assert(steps.take(i + 1).drop_last() =~= steps.take(i as int));
            i += 1;
        }
        assert(steps.take(i as int) =~= steps);
    }

    /// Enters the target of each edge of a list in a further mode.
    fn enqueue_each_besides(
        &self,
        t: &mut DirectionalTraversal,
        state: ReasoningState,
        edges: &Vec<(NodeIndex, EdgeKind)>,
        relation: ReasoningRelation,
        enter_mode: ReasoningMode,
    )
        requires
            self.graph.wf(),
            self.graph.has(state.node_index),
            forall|k: int| 0 <= k < edges@.len() ==> self.graph.has((#[trigger] edges@[k]).0),
            old(t).wf(),
        ensures
            final(t).wf(),
            self.walk_of(*final(t)) == self.walk_of(*old(t)),
            final(t).progress() == self.walk_of(*old(t)).make_moves(
                old(t).progress(),
                state,
                traversal::besides_each(edges@, relation, enter_mode),
            ),
    {
        let ghost walk = self.walk_of(*t);
        let ghost before = t.progress();
        let ghost steps = traversal::besides_each(edges@, relation, enter_mode);
        let mut i: usize = 0;
        assert(steps.take(0) =~= Seq::empty());
        while i < edges.len()
            invariant
                self.graph.wf(),
                self.graph.has(state.node_index),
                forall|k: int| 0 <= k < edges@.len() ==> self.graph.has((#[trigger] edges@[k]).0),
                t.wf(),
                self.walk_of(*t) == walk,
                steps == traversal::besides_each(edges@, relation, enter_mode),
                i <= edges@.len(),
                t.progress() == walk.make_moves(before, state, steps.take(i as int)),
            decreases edges@.len() - i,
        {
            self.enqueue_besides(t, state, edges[i].0, relation, enter_mode);
            assert(steps.take(i + 1).drop_last() =~= steps.take(i as int));
            i += 1;
        }
        assert(steps.take(i as int) =~= steps);
    }

    /// Follows the callers of a node, which show how it is used.
    fn enqueue_callers(&self, t: &mut DirectionalTraversal, state: ReasoningState)
        requires
            self.graph.wf(),
            self.graph.has(state.node_index),
            old(t).wf(),
        ensures
            final(t).wf(),
            self.walk_of(*final(t)) == self.walk_of(*old(t)),
            final(t).progress() == self.walk_of(*old(t)).make_moves(
                old(t).progress(),
                state,
                traversal::caller_moves(*self.graph, state.node_index),
            ),
    {
        let callers = self.graph.incoming_edges(state.node_index, Some(EdgeKind::Call));
        self.enqueue_each(
            t,
            state,
            &callers,
            ReasoningRelation::UsageEvidence,
            ReasoningMode::NeedUsageEvidence,
        );
    }

    /// Follows the contracts that a node inherits.
    fn enqueue_parent_contracts(
        &self,
        t: &mut DirectionalTraversal,
        state: ReasoningState,
        continue_to_parent_usage: bool,
    )
        requires
            self.graph.wf(),
            self.graph.has(state.node_index),
            old(t).wf(),
        ensures
            final(t).wf(),
            self.walk_of(*final(t)) == self.walk_of(*old(t)),
            final(t).progress() == self.walk_of(*old(t)).make_moves(
                old(t).progress(),
                state,
                traversal::parent_moves(
                    self.graph.incoming(state.node_index, Some(EdgeKind::OverriddenBy)),
                    continue_to_parent_usage,
                    state.direction,
                ),
            ),
    {
        let ghost walk = self.walk_of(*t);
        let ghost before = t.progress();
        let parents = self.graph.incoming_edges(state.node_index, Some(EdgeKind::OverriddenBy));
        let mut i: usize = 0;
        while i < parents.len()
            invariant
                self.graph.wf(),
                self.graph.has(state.node_index),
                forall|k: int|
                    0 <= k < parents@.len() ==> self.graph.has((#[trigger] parents@[k]).0),
                t.wf(),
                self.walk_of(*t) == walk,
                i <= parents@.len(),
                t.progress() == walk.make_moves(
                    before,
                    state,
                    traversal::parent_moves(
                        parents@.take(i as int),
                        continue_to_parent_usage,
                        state.direction,
                    ),
                ),
            decreases parents@.len() - i,
        {
            let parent_index = parents[i].0;
            let ghost steps = traversal::parent_moves(
                parents@.take(i as int),
                continue_to_parent_usage,
                state.direction,
            );
            let ghost follow = Move::Follow {
                target: parent_index,
                relation: ReasoningRelation::ParentContract,
                enter_mode: ReasoningMode::NeedSurface,
            };
            self.enqueue_target(
                t,
                state,
                parent_index,
                ReasoningRelation::ParentContract,
                ReasoningMode::NeedSurface,
            );
            assert(steps.push(follow).drop_last() =~= steps);
            assert(t.progress() == walk.make_moves(before, state, steps.push(follow)));
            if continue_to_parent_usage {
                let next = ReasoningState {
                    node_index: parent_index,
                    direction: state.direction,
                    reasoning_mode: ReasoningMode::NeedParentUsage,
                };
                let ghost middle = t.progress();
                t.push_state(
                    next,
                    Arrival {
                        edge_kind: EdgeKind::OverriddenBy,
                        decision: PruningDecision::Transparent,
                    },
                );
                proof {
                    let both = steps.push(follow).push(Move::Continue(next));
                    assert(both.drop_last() =~= steps.push(follow));
                    assert(t.progress() == walk.make_move(middle, state, Move::Continue(next)));
                    assert(t.progress() == walk.make_moves(before, state, both));
                }
            }
            assert(parents@.take(i + 1).drop_last() =~= parents@.take(i as int));
            i += 1;
        }
        assert(parents@.take(i as int) =~= parents@);
    }

    /// Follows what overriding obliges to: the contracts of parents and their uses,
    /// and the implementations of children.
    fn enqueue_override_obligations(&self, t: &mut DirectionalTraversal, state: ReasoningState)
        requires
            self.graph.wf(),
            self.graph.has(state.node_index),
            old(t).wf(),
        ensures
            final(t).wf(),
            self.walk_of(*final(t)) == self.walk_of(*old(t)),
            final(t).progress() == self.walk_of(*old(t)).make_moves(
                old(t).progress(),
                state,
                traversal::parent_moves(
                    self.graph.incoming(state.node_index, Some(EdgeKind::OverriddenBy)),
                    true,
                    state.direction,
                ) + traversal::child_moves(self.graph.outgoing(state.node_index)),
            ),
    {
        let ghost walk = self.walk_of(*t);
        let ghost start = t.progress();
        self.enqueue_parent_contracts(t, state, true);
        let ghost before = t.progress();
        let edges = self.graph.outgoing_edges(state.node_index);
        let mut i: usize = 0;
        while i < edges.len()
            invariant
                self.graph.wf(),
                self.graph.has(state.node_index),
                forall|k: int| 0 <= k < edges@.len() ==> self.graph.has((#[trigger] edges@[k]).0),
                t.wf(),
                self.walk_of(*t) == walk,
                i <= edges@.len(),
                t.progress() == walk.make_moves(
                    before,
                    state,
                    traversal::child_moves(edges@.take(i as int)),
                ),
            decreases edges@.len() - i,
        {
            let (child_index, edge_kind) = edges[i];
            let ghost steps = traversal::child_moves(edges@.take(i as int));
            assert(edges@.take(i + 1).drop_last() =~= edges@.take(i as int));
            if edge_kind == EdgeKind::OverriddenBy {
                self.enqueue_target(
                    t,
                    state,
                    child_index,
                    ReasoningRelation::ChildImplementationEvidence,
                    ReasoningMode::NeedImplementation,
                );
                proof {
                    let follow = Move::Follow {
                        target: child_index,
                        relation: ReasoningRelation::ChildImplementationEvidence,
                        enter_mode: ReasoningMode::NeedImplementation,
                    };
                    assert(steps.push(follow).drop_last() =~= steps);
                }
            }
            i += 1;
        }
        proof {
            assert(edges@.take(i as int) =~= edges@);
            lemma_make_moves_add(
                walk,
                start,
                state,
                traversal::parent_moves(
                    self.graph.incoming(state.node_index, Some(EdgeKind::OverriddenBy)),
                    true,
                    state.direction,
                ),
                traversal::child_moves(edges@),
            );
        }
    }

    /// Follows the readers of what a node writes.
    fn enqueue_state_readers(&self, t: &mut DirectionalTraversal, state: ReasoningState)
        requires
            self.graph.wf(),
            self.graph.has(state.node_index),
            old(t).wf(),
        ensures
            final(t).wf(),
            self.walk_of(*final(t)) == self.walk_of(*old(t)),
            final(t).progress() == self.walk_of(*old(t)).make_moves(
                old(t).progress(),
                state,
                traversal::reader_moves(*self.graph, self.graph.outgoing(state.node_index)),
            ),
    {
        let ghost walk = self.walk_of(*t);
        let ghost before = t.progress();
        let edges = self.graph.outgoing_edges(state.node_index);
        let mut i: usize = 0;
        while i < edges.len()
            invariant
                self.graph.wf(),
                self.graph.has(state.node_index),
                forall|k: int| 0 <= k < edges@.len() ==> self.graph.has((#[trigger] edges@[k]).0),
                t.wf(),
                self.walk_of(*t) == walk,
                i <= edges@.len(),
                t.progress() == walk.make_moves(
                    before,
                    state,
                    traversal::reader_moves(*self.graph, edges@.take(i as int)),
                ),
            decreases edges@.len() - i,
        {
            let (variable_index, edge_kind) = edges[i];
            let ghost steps = traversal::reader_moves(self.context(), edges@.take(i as int));
            assert(edges@.take(i + 1).drop_last() =~= edges@.take(i as int));
            let observed: bool = if edge_kind != EdgeKind::Write {
                false
            } else {
                match self.graph.node(variable_index) {
                    Node::Variable(variable) => variable.mutability == Mutability::Mutable,
                    Node::Function(_) => false,
                }
            };
            if observed {
                self.enqueue_target(
                    t,
                    state,
                    variable_index,
                    ReasoningRelation::Write,
                    ReasoningMode::NeedSurface,
                );
                let ghost middle = t.progress();
                let readers = self.graph.incoming_edges(variable_index, Some(EdgeKind::Read));
                self.enqueue_each(
                    t,
                    state,
                    &readers,
                    ReasoningRelation::ObservedBy,
                    ReasoningMode::NeedImplementation,
                );
                proof {
                    let follow = Move::Follow {
                        target: variable_index,
                        relation: ReasoningRelation::Write,
                        enter_mode: ReasoningMode::NeedSurface,
                    };
                    assert(steps.push(follow).drop_last() =~= steps);
                    assert(middle == walk.make_moves(before, state, steps.push(follow)));
                    lemma_make_moves_add(
                        walk,
                        before,
                        state,
                        steps.push(follow),
                        traversal::follow_each(
                            readers@,
                            ReasoningRelation::ObservedBy,
                            ReasoningMode::NeedImplementation,
                        ),
                    );
                }
            }
            i += 1;
        }
        assert(edges@.take(i as int) =~= edges@);
    }
}

/// The types that the signature of a node mentions, in order.
fn mentioned_type_ids(node: &Node) -> (r: Vec<&String>)
    ensures
        type_closure::texts_behind(r@) == traversal::mentioned_types(*node),
{
    let mut r: Vec<&String> = Vec::new();
    match node {
        Node::Function(f) => {
            let mut i: usize = 0;
            while i < f.parameters.len()
                invariant
                    i <= f.parameters@.len(),
                    type_closure::texts_behind(r@) == traversal::parameter_types(
                        f.parameters@.take(i as int),
                    ),
                decreases f.parameters@.len() - i,
            {
                let ghost before = r@;
                assert(f.parameters@.take(i + 1).drop_last() =~= f.parameters@.take(i as int));
                if let Some(type_id) = &f.parameters[i].param_type {
                    r.push(type_id);
                    assert(type_closure::texts_behind(r@) =~= type_closure::texts_behind(
                        before,
                    ).push(type_id@));
                }
                i += 1;
            }
            let ghost first = type_closure::texts_behind(r@);
            assert(f.parameters@.take(i as int) =~= f.parameters@);
            let mut j: usize = 0;
            while j < f.return_types.len()
                invariant
                    j <= f.return_types@.len(),
                    type_closure::texts_behind(r@) == first + text::texts(
                        f.return_types@.take(j as int),
                    ),
                decreases f.return_types@.len() - j,
            {
                let ghost before = r@;
                r.push(&f.return_types[j]);
                assert(type_closure::texts_behind(r@) =~= type_closure::texts_behind(
                    before,
                ).push(f.return_types@[j as int]@));
                assert(text::texts(f.return_types@.take(j + 1)) =~= text::texts(
                    f.return_types@.take(j as int),
                ).push(f.return_types@[j as int]@));
                j += 1;
            }
            assert(f.return_types@.take(j as int) =~= f.return_types@);
        },
        Node::Variable(v) => {
            if let Some(type_id) = &v.var_type {
                r.push(type_id);
            }
            assert(type_closure::texts_behind(r@) =~= traversal::mentioned_types(*node));
        },
    }
    r
}

/// What a list of fragments costs.
pub open spec fn charges_of_list(list: Seq<&ContextFragment>) -> Seq<Charge> {
    list.map_values(|fragment: &ContextFragment| traversal::charge_of(*fragment))
}

/// The surfaces of the registered types that a node brings in, each type once.
fn referenced_type_fragments<'n>(node: &'n Node, registry: &'n TypeRegistry) -> (r: Vec<
    &'n ContextFragment,
>)
    requires
        registry.wf(),
    ensures
        charges_of_list(r@) == traversal::type_charges(
            type_closure::named_types(traversal::mentioned_types(*node), registry@),
            registry@,
        ),
{
    let mentioned = mentioned_type_ids(node);
    let type_ids = type_closure::close_over(&mentioned, registry);
    let ghost ids = type_closure::texts_behind(type_ids@);
    let mut r: Vec<&'n ContextFragment> = Vec::new();
    let mut i: usize = 0;
    assert(charges_of_list(r@) =~= Seq::empty());
    while i < type_ids.len()
        invariant
            registry.wf(),
            ids == type_closure::texts_behind(type_ids@),
            type_closure::is_worklist(ids, 0, registry@),
            i <= type_ids@.len(),
            charges_of_list(r@) == traversal::type_charges(ids.take(i as int), registry@),
        decreases type_ids@.len() - i,
    {
        assert(registry@.contains_key(ids[i as int]));
        assert(ids.take(i + 1).drop_last() =~= ids.take(i as int));
        if let Some(info) = registry.get(type_ids[i].as_str()) {
            let ghost before = r@;
            r.push(&info.surface_fragment);
            assert(charges_of_list(r@) =~= charges_of_list(before).push(
                traversal::charge_of(info.surface_fragment),
            ));
        }
        i += 1;
    }
    assert(ids.take(i as int) =~= ids);
    r
}

/// Whether a mode needs the implementation besides the surface.
fn mode_requires_implementation(mode: ReasoningMode) -> (r: bool)
    ensures
        r == traversal::needs_implementation(mode),
{
    match mode {
        ReasoningMode::NeedBehavior
        | ReasoningMode::NeedValueProvenance
        | ReasoningMode::NeedUsageEvidence
        | ReasoningMode::NeedContractEvidence
        | ReasoningMode::NeedImplementation => true,
        ReasoningMode::NeedSurface | ReasoningMode::NeedParentUsage => false,
    }
}

/// Once the limit is met, nothing more is charged.
proof fn lemma_charge_all_stuck<P: BoundaryPolicy>(
    walk: Walk<P>,
    progress: Progress,
    list: Seq<Charge>,
    state: ReasoningState,
    k: int,
)
    requires
        0 <= k <= list.len(),
        walk.charge_all(progress, list.take(k), state).truncated,
    ensures
        walk.charge_all(progress, list, state) == walk.charge_all(progress, list.take(k), state),
    decreases list.len(),
{
    if k == list.len() {
        assert(list.take(k) =~= list);
    } else {
        assert(list.drop_last().take(k) =~= list.take(k));
        lemma_charge_all_stuck(walk, progress, list.drop_last(), state, k);
    }
}

impl<P: BoundaryPolicy> CfSolver<P> {
    /// The fragments that a state needs, in order.
    fn required_fragments(&self, state: ReasoningState) -> (r: Vec<&ContextFragment>)
        requires
            self.graph.wf(),
            self.graph.has(state.node_index),
        ensures
            charges_of_list(r@) == traversal::required(*self.graph, state),
    {
        let node = self.graph.node(state.node_index);
        let mut r: Vec<&ContextFragment> = Vec::new();
        r.push(&node.node_core().surface_fragment);
        let mut types = referenced_type_fragments(node, &self.graph.type_registry);
        let ghost type_list = types@;
        r.append(&mut types);
        assert(charges_of_list(r@) =~= seq![
            traversal::charge_of(node.node_core().surface_fragment),
        ] + charges_of_list(type_list));
        if mode_requires_implementation(state.reasoning_mode) {
            if let Some(fragment) = &node.node_core().implementation_fragment {
                let ghost before = r@;
                r.push(fragment);
                assert(charges_of_list(r@) =~= charges_of_list(before).push(
                    traversal::charge_of(*fragment),
                ));
            }
        }
        r
    }

    /// Charges what a state needs. Returns whether the limit allowed it.
    fn load_state(&self, t: &mut DirectionalTraversal, state: ReasoningState) -> (r: bool)
        requires
            self.graph.wf(),
            self.graph.has(state.node_index),
            old(t).wf(),
            !old(t).progress().truncated,
        ensures
            final(t).wf(),
            self.walk_of(*final(t)) == self.walk_of(*old(t)),
            final(t).progress() == self.walk_of(*old(t)).charge_all(
                old(t).progress(),
                traversal::required(*self.graph, state),
                state,
            ),
            r == !final(t).progress().truncated,
    {
        let ghost walk = self.walk_of(*t);
        let ghost before = t.progress();
        let needed = self.required_fragments(state);
        let ghost list = charges_of_list(needed@);
        let mut i: usize = 0;
        assert(list.take(0) =~= Seq::empty());
        while i < needed.len()
            invariant
                t.wf(),
                self.walk_of(*t) == walk,
                list == charges_of_list(needed@),
                i <= needed@.len(),
                !t.progress().truncated,
                walk == self.walk_of(*old(t)),
                before == old(t).progress(),
                t.progress() == walk.charge_all(before, list.take(i as int), state),
                list == traversal::required(*self.graph, state),
            decreases needed@.len() - i,
        {
            assert(list.take(i + 1).drop_last() =~= list.take(i as int));
            let allowed = t.add_fragment_with_limit::<P>(
                needed[i],
                state,
                Ghost(self.context()),
                Ghost(self.policy()),
            );
            assert(t.progress() == walk.charge_all(before, list.take(i + 1), state));
            if !allowed {
                proof {
                    lemma_charge_all_stuck(walk, before, list, state, i + 1);
                }
                return false;
            }
            i += 1;
        }
        assert(list.take(i as int) =~= list);
        true
    }

    /// Makes the moves of a state.
    fn expand_state(&self, t: &mut DirectionalTraversal, state: ReasoningState)
        requires
            self.graph.wf(),
            self.graph.has(state.node_index),
            old(t).wf(),
        ensures
            final(t).wf(),
            self.walk_of(*final(t)) == self.walk_of(*old(t)),
            final(t).progress() == self.walk_of(*old(t)).make_moves(
                old(t).progress(),
                state,
                self.walk_of(*old(t)).moves(state),
            ),
    {
        let ghost walk = self.walk_of(*t);
        let ghost before = t.progress();
        let node = self.graph.node(state.node_index);
        match (state.direction, state.reasoning_mode) {
            (Direction::Out, ReasoningMode::NeedBehavior) => {
                self.enqueue_dependencies(t, state);
            },
            (Direction::Out, ReasoningMode::NeedValueProvenance) => {
                let changes: bool = match node {
                    Node::Variable(variable) => variable.mutability == Mutability::Mutable,
                    Node::Function(_) => false,
                };
                if changes {
                    let writers = self.graph.incoming_edges(
                        state.node_index,
                        Some(EdgeKind::Write),
                    );
                    self.enqueue_each(
                        t,
                        state,
                        &writers,
                        ReasoningRelation::ValueProvenance,
                        ReasoningMode::NeedBehavior,
                    );
                    self.enqueue_each_besides(
                        t,
                        state,
                        &writers,
                        ReasoningRelation::ValueProvenance,
                        ReasoningMode::NeedUsageEvidence,
                    );
                    proof {
                        lemma_make_moves_add(
                            walk,
                            before,
                            state,
                            traversal::follow_each(
                                writers@,
                                ReasoningRelation::ValueProvenance,
                                ReasoningMode::NeedBehavior,
                            ),
                            traversal::besides_each(
                                writers@,
                                ReasoningRelation::ValueProvenance,
                                ReasoningMode::NeedUsageEvidence,
                            ),
                        );
                    }
                }
            },
            (_, ReasoningMode::NeedContractEvidence) => {
                self.enqueue_usage(t, state, ReasoningMode::NeedContractEvidence);
            },
            (_, ReasoningMode::NeedUsageEvidence) | (_, ReasoningMode::NeedParentUsage) => {
                self.enqueue_usage(t, state, ReasoningMode::NeedUsageEvidence);
            },
            _ => {},
        }
    }

    /// Follows what shows how a node is used, as far as its contract leaves it open.
    fn enqueue_usage(
        &self,
        t: &mut DirectionalTraversal,
        state: ReasoningState,
        gate_mode: ReasoningMode,
    )
        requires
            self.graph.wf(),
            self.graph.has(state.node_index),
            old(t).wf(),
        ensures
            final(t).wf(),
            self.walk_of(*final(t)) == self.walk_of(*old(t)),
            final(t).progress() == self.walk_of(*old(t)).make_moves(
                old(t).progress(),
                state,
                traversal::usage_moves(
                    *self.graph,
                    state.node_index,
                    self.walk_of(*old(t)).leaky(gate_mode, state.node_index),
                    state.direction,
                ),
            ),
    {
        let ghost walk = self.walk_of(*t);
        let ghost before = t.progress();
        let decision = self.boundary_policy.evaluate_contract(
            gate_mode,
            self.graph.node(state.node_index),
            &self.graph.type_registry,
        );
        if decision != BoundaryDecision::StopAtSurface {
            self.enqueue_callers(t, state);
            self.enqueue_override_obligations(t, state);
            self.enqueue_state_readers(t, state);
            proof {
                let graph = self.context();
                let a = traversal::caller_moves(graph, state.node_index);
                let b = traversal::parent_moves(
                    graph.incoming(state.node_index, Some(EdgeKind::OverriddenBy)),
                    true,
                    state.direction,
                );
                let c = traversal::child_moves(graph.outgoing(state.node_index));
                let d = traversal::reader_moves(graph, graph.outgoing(state.node_index));
                lemma_make_moves_add(walk, before, state, a, b + c);
                lemma_make_moves_add(walk, before, state, a + (b + c), d);
                assert(a + (b + c) + d =~= a + b + c + d);
            }
        } else {
            self.enqueue_parent_contracts(t, state, false);
        }
    }

    /// Follows everything that the behavior of a node depends on.
    fn enqueue_dependencies(&self, t: &mut DirectionalTraversal, state: ReasoningState)
        requires
            self.graph.wf(),
            self.graph.has(state.node_index),
            old(t).wf(),
        ensures
            final(t).wf(),
            self.walk_of(*final(t)) == self.walk_of(*old(t)),
            final(t).progress() == self.walk_of(*old(t)).make_moves(
                old(t).progress(),
                state,
                traversal::behavior_moves(*self.graph, state.node_index),
            ),
    {
        let ghost walk = self.walk_of(*t);
        let ghost before = t.progress();
        let edges = self.graph.outgoing_edges(state.node_index);
        let ghost steps = traversal::behavior_moves(self.context(), state.node_index);
        let mut i: usize = 0;
        assert(steps.take(0) =~= Seq::empty());
        while i < edges.len()
            invariant
                self.graph.wf(),
                self.graph.has(state.node_index),
                forall|k: int| 0 <= k < edges@.len() ==> self.graph.has((#[trigger] edges@[k]).0),
                edges@ == self.graph.outgoing(state.node_index),
                t.wf(),
                self.walk_of(*t) == walk,
                steps == traversal::behavior_moves(*self.graph, state.node_index),
                i <= edges@.len(),
                t.progress() == walk.make_moves(before, state, steps.take(i as int)),
            decreases edges@.len() - i,
        {
            let (target_index, edge_kind) = edges[i];
            let (relation, next_mode) = match edge_kind {
                EdgeKind::Call => (ReasoningRelation::Call, ReasoningMode::NeedBehavior),
                EdgeKind::Read => (ReasoningRelation::Read, ReasoningMode::NeedValueProvenance),
                EdgeKind::Write => (ReasoningRelation::Write, ReasoningMode::NeedSurface),
                EdgeKind::Annotates => (ReasoningRelation::Annotates, ReasoningMode::NeedBehavior),
                EdgeKind::OverriddenBy => (
                    ReasoningRelation::DynamicDispatch,
                    ReasoningMode::NeedBehavior,
                ),
            };
            self.enqueue_target(t, state, target_index, relation, next_mode);
            assert(steps.take(i + 1).drop_last() =~= steps.take(i as int));
            i += 1;
        }
        assert(steps.take(i as int) =~= steps);
    }

    /// Takes the first state out of the queue, and visits it unless it was visited.
    fn visit_next(&self, t: &mut DirectionalTraversal)
        requires
            old(t).wf(),
            self.walk_of(*old(t)).valid(old(t).progress()),
            old(t).progress().queue.len() > 0,
            !old(t).progress().truncated,
        ensures
            final(t).wf(),
            self.walk_of(*final(t)) == self.walk_of(*old(t)),
            final(t).progress() == self.walk_of(*old(t)).step(old(t).progress()),
    {
        let ghost walk = self.walk_of(*t);
        let ghost before = t.progress();
        let state = match t.queue.pop_front() {
            Some(state) => state,
            None => {
                return;
            },
        };
        assert(state == before.queue[0]);
        assert(walk.is_state(before.queue[0]));
        assert(t.queue@ =~= before.queue.drop_first());
        let number: u64 = state_number(state);
        if t.visited_states.contains(&number) {
            assert(t.progress().visited =~= before.visited);
            assert(t.progress() == walk.step(before));
            return;
        }
        let ghost visited_before = t.visited_states@;
        t.visited_states.insert(number);
        proof {
            assert forall|s: ReasoningState|
                t.progress().visited.contains(s) == before.visited.insert(state).contains(s) by {
                if s.direction == state.direction && traversal::state_code(s)
                    == traversal::state_code(state) {
                    traversal::lemma_state_code(s, state);
                }
            }
            assert(t.progress().visited =~= before.visited.insert(state));
        }
        if !t.seen_nodes.contains(&state.node_index.ix) {
            let ghost nodes_before = t.nodes@;
            t.seen_nodes.insert(state.node_index.ix);
            t.nodes.push(state.node_index);
            proof {
                assert forall|x: u32|
                    #![trigger t.seen_nodes@.contains(x)]
                    t.seen_nodes@.contains(x) <==> t.nodes@.contains(NodeIndex { ix: x }) by {
                    let node = NodeIndex { ix: x };
                    if nodes_before.contains(node) {
                        let k = choose|k: int| 0 <= k < nodes_before.len() && nodes_before[k] == node;
                        assert(t.nodes@[k] == node);
                    }
                    if t.nodes@.contains(node) {
                        let k = choose|k: int| 0 <= k < t.nodes@.len() && t.nodes@[k] == node;
                        if k < nodes_before.len() {
                            assert(nodes_before[k] == node);
                        }
                    }
                    assert(t.nodes@[nodes_before.len() as int] == state.node_index);
                }
            }
        }
        assert(NodeIndex { ix: state.node_index.ix } == state.node_index);
        assert(t.progress() == walk.enter(before));
        if !self.load_state(t, state) {
            let ghost loaded = t.progress();
            let ghost mut at: int = 0;
            assert(loaded.queue.skip(0) =~= loaded.queue);
            assert(loaded.unresolved + loaded.queue.take(0) =~= loaded.unresolved);
            while t.queue.len() > 0
                invariant
                    t.wf(),
                    self.walk_of(*t) == walk,
                    0 <= at <= loaded.queue.len(),
                    t.queue@ == loaded.queue.skip(at),
                    t.progress() == (Progress {
                        unresolved: loaded.unresolved + loaded.queue.take(at),
                        queue: loaded.queue.skip(at),
                        ..loaded
                    }),
                decreases t.queue@.len(),
            {
                let ghost middle = t.progress();
                if let Some(left) = t.queue.pop_front() {
                    t.unresolved_states.push(left);
                    proof {
                        assert(t.queue@ =~= loaded.queue.skip(at + 1));
                        assert(t.unresolved_states@ =~= loaded.unresolved + loaded.queue.take(
                            at + 1,
                        ));
                        assert(t.progress().visited =~= middle.visited);
                        at = at + 1;
                    }
                }
            }
            proof {
                assert(loaded.queue.skip(at) =~= Seq::empty());
                assert(loaded.queue.take(at) =~= loaded.queue);
            }
            return;
        }
        if self.graph.node(state.node_index).node_core().is_external {
            return;
        }
        self.expand_state(t, state);
    }

    /// Traverses from the start nodes in one direction, within a limit on what is
    /// paid. Fragments in `prepaid` were paid for before, which matters to the limit
    /// alone: without one, the outcome is that of a traversal that starts with nothing
    /// paid for.
    pub fn traverse_reasoning<'a>(
        &self,
        starts: &[NodeIndex],
        direction: Direction,
        max_tokens: Option<u32>,
        prepaid: &'a SymbolTable<u32>,
    ) -> (t: DirectionalTraversal<'a>)
        requires
            self.graph.wf(),
            forall|i: int| 0 <= i < starts@.len() ==> self.graph.has(#[trigger] starts@[i]),
            prepaid.wf(),
        ensures
            t.wf(),
            t.progress() == (Walk {
                graph: *self.graph,
                policy: *self.boundary_policy,
                direction,
                limit: max_tokens,
                prepaid: charges_of(*prepaid),
            }).outcome(starts@),
            t.walk(*self.graph, *self.boundary_policy) == (Walk {
                graph: *self.graph,
                policy: *self.boundary_policy,
                direction,
                limit: max_tokens,
                prepaid: charges_of(*prepaid),
            }),
            max_tokens is None ==> t.progress() == (Walk {
                graph: *self.graph,
                policy: *self.boundary_policy,
                direction,
                limit: None,
                prepaid: Seq::empty(),
            }).outcome(starts@),
    {
        let initial_mode = match direction {
            Direction::Out => ReasoningMode::NeedBehavior,
            Direction::In => ReasoningMode::NeedContractEvidence,
        };
        let mut t = DirectionalTraversal {
            direction,
            max_tokens,
            prepaid,
            spent: sum_of_sizes(prepaid),
            fragments: SymbolTable::new(),
            queue: VecDeque::new(),
            visited_states: HashSet::new(),
            nodes: Vec::new(),
            seen_nodes: HashSet::new(),
            arrivals: HashMap::new(),
            boundary_stops: Vec::new(),
            unresolved_states: Vec::new(),
            truncated: false,
        };
        let ghost walk = self.walk_of(t);
        let ghost start = traversal::initial(starts@, direction);
        assert(charges_of(t.fragments) =~= Seq::empty());
        assert(t.progress().visited =~= Set::empty());
        assert(t.progress().queue =~= start.queue.take(0));
        assert(t.progress().reached =~= traversal::initial(starts@.take(0), direction).reached);
        let mut i: usize = 0;
        while i < starts.len()
            invariant
                t.wf(),
                self.walk_of(t) == walk,
                walk.direction == direction,
                initial_mode == traversal::initial_mode(direction),
                start == traversal::initial(starts@, direction),
                i <= starts@.len(),
                t.progress() == (Progress {
                    queue: start.queue.take(i as int),
                    reached: traversal::initial(starts@.take(i as int), direction).reached,
                    ..start
                }),
            decreases starts@.len() - i,
        {
            let ghost middle = t.progress();
            t.arrivals.insert(starts[i].ix, None);
            proof {
                let less = starts@.take(i as int);
                let more = starts@.take(i + 1);
                assert(more =~= less.push(starts@[i as int]));
                assert forall|idx: NodeIndex| #[trigger]
                    more.contains(idx) <==> less.contains(idx) || idx.ix == starts@[i as int].ix by {
                    if less.contains(idx) {
                        let k = choose|k: int| 0 <= k < less.len() && less[k] == idx;
                        assert(more[k] == idx);
                    }
                    if more.contains(idx) {
                        let k = choose|k: int| 0 <= k < more.len() && more[k] == idx;
                        if k < less.len() {
                            assert(less[k] == idx);
                        }
                    }
                    assert(more[i as int] == starts@[i as int]);
                }
                let reached = t.progress().reached;
                let expected = traversal::initial(more, direction).reached;
                assert forall|idx: NodeIndex| #[trigger]
                    reached.contains_key(idx) <==> expected.contains_key(idx) by {
                    assert(middle.reached.contains_key(idx) <==> less.contains(idx));
                    assert(more.contains(idx) <==> less.contains(idx) || idx.ix
                        == starts@[i as int].ix);
                }
                assert forall|idx: NodeIndex| #[trigger]
                    reached.contains_key(idx) implies reached[idx] == expected[idx] by {
                    if idx.ix != starts@[i as int].ix {
                        assert(middle.reached.contains_key(idx));
                        assert(middle.reached[idx] is None);
                    }
                }
                assert(reached =~= expected);
            }
            t.queue.push_back(
                ReasoningState {
                    node_index: starts[i],
                    direction,
                    reasoning_mode: initial_mode,
                },
            );
            assert(t.queue@ =~= start.queue.take(i + 1));
            assert(t.progress().visited =~= middle.visited);
            i += 1;
        }
        proof {
            assert(start.queue.take(i as int) =~= start.queue);
            assert(starts@.take(i as int) =~= starts@);
            walk.lemma_initial_valid(starts@);
        }
        while t.queue.len() > 0
            invariant
                t.wf(),
                self.walk_of(t) == walk,
                walk.valid(t.progress()),
                walk.run(t.progress()) == walk.outcome(starts@),
                t.progress().truncated ==> t.progress().queue.len() == 0,
            decreases walk.unvisited(t.progress()), t.progress().queue.len(),
        {
            let ghost before = t.progress();
            self.visit_next(&mut t);
            proof {
                walk.lemma_step_valid(before);
                lemma_step_truncated(walk, before);
            }
        }
        proof {
            if max_tokens is None {
                let unpaid = Walk { prepaid: Seq::empty(), ..walk };
                walk.law_prepaid_hides_nothing(unpaid, starts@);
            }
        }
        t
    }
}

/// A traversal that the limit ended has an empty queue.
proof fn lemma_step_truncated<P: BoundaryPolicy>(walk: Walk<P>, progress: Progress)
    requires
        progress.queue.len() > 0,
        !progress.truncated,
    ensures
        walk.step(progress).truncated ==> walk.step(progress).queue.len() == 0,
{
    let state = progress.queue[0];
    if !progress.visited.contains(state) {
        let entered = walk.enter(progress);
        let loaded = walk.charge_all(entered, traversal::required(walk.graph, state), state);
        if !loaded.truncated {
            lemma_make_moves_truncated(walk, loaded, state, walk.moves(state));
        }
    }
}

proof fn lemma_make_moves_truncated<P: BoundaryPolicy>(
    walk: Walk<P>,
    progress: Progress,
    state: ReasoningState,
    steps: Seq<Move>,
)
    ensures
        walk.make_moves(progress, state, steps).truncated == progress.truncated,
    decreases steps.len(),
{
    if steps.len() > 0 {
        lemma_make_moves_truncated(walk, progress, state, steps.drop_last());
    }
}

/// A step of a traversal: a node, with the kind of edge and the decision that first led
/// to it. A start node has neither.
#[derive(Debug, Clone, Copy, PartialEq, Eq, Structural)]
pub struct TraversalStep {
    pub node_id: NodeId,
    pub incoming_edge_kind: Option<EdgeKind>,
    pub decision: Option<PruningDecision>,
}

/// A context footprint.
#[derive(Debug)]
pub struct CfResult {
    pub reachable_set: HashSet<NodeId>,
    pub reachable_nodes_ordered: Vec<NodeId>,
    /// One layer of all nodes: a traversal of modes is not a single breadth-first tree.
    pub reachable_nodes_by_layer: Vec<Vec<NodeId>>,
    /// A step for each node, in order.
    pub traversal_steps: Vec<TraversalStep>,
    pub total_context_size: u32,
    pub cf_total: u32,
    pub cf_out: u32,
    pub cf_in: u32,
    pub cf_overlap: u32,
    pub out_fragments: Vec<ContextFragmentId>,
    pub in_fragments: Vec<ContextFragmentId>,
    pub boundary_stops: Vec<BoundaryStop>,
    pub unresolved_states: Vec<ReasoningState>,
    pub truncated: bool,
    pub boundary_policy_id: String,
    pub size_function_id: String,
    pub measurement_scope_id: String,
    pub graph_total_references: usize,
    pub graph_unresolved_calls: usize,
    pub graph_total_functions: usize,
    pub graph_functions_with_explicit_fragments: usize,
}

/// The nodes of one list, and then those of another that are new.
pub open spec fn merged_nodes(a: Seq<NodeIndex>, b: Seq<NodeIndex>) -> Seq<NodeIndex>
    decreases b.len(),
{
    if b.len() == 0 {
        a
    } else {
        let rest = merged_nodes(a, b.drop_last());
        if rest.contains(b.last()) {
            rest
        } else {
            rest.push(b.last())
        }
    }
}

/// Merged nodes come from one of the lists.
proof fn lemma_merged_nodes(a: Seq<NodeIndex>, b: Seq<NodeIndex>)
    ensures
        forall|i: int|
            0 <= i < merged_nodes(a, b).len() ==> a.contains(#[trigger] merged_nodes(a, b)[i])
                || b.contains(merged_nodes(a, b)[i]),
    decreases b.len(),
{
    let merged = merged_nodes(a, b);
    if b.len() == 0 {
        assert forall|i: int| 0 <= i < merged.len() implies a.contains(#[trigger] merged[i]) by {
            assert(a[i] == merged[i]);
        }
    } else {
        let rest = merged_nodes(a, b.drop_last());
        lemma_merged_nodes(a, b.drop_last());
        assert forall|i: int| 0 <= i < merged.len() implies a.contains(#[trigger] merged[i])
            || b.contains(merged[i]) by {
            if i < rest.len() {
                assert(merged[i] == rest[i]);
                if b.drop_last().contains(rest[i]) {
                    let k = choose|k: int|
                        0 <= k < b.drop_last().len() && b.drop_last()[k] == rest[i];
                    assert(b[k] == rest[i]);
                }
            } else {
                assert(merged[i] == b.last());
                assert(b[b.len() - 1] == b.last());
            }
        }
    }
}

/// Merged nodes are those of both lists.
pub proof fn lemma_merged_nodes_hold_both(a: Seq<NodeIndex>, b: Seq<NodeIndex>)
    ensures
        forall|idx: NodeIndex| #[trigger]
            merged_nodes(a, b).contains(idx) <==> a.contains(idx) || b.contains(idx),
    decreases b.len(),
{
    if b.len() > 0 {
        let rest = merged_nodes(a, b.drop_last());
        let merged = merged_nodes(a, b);
        lemma_merged_nodes_hold_both(a, b.drop_last());
        assert(b[b.len() - 1] == b.last());
        assert forall|idx: NodeIndex| #[trigger]
            merged.contains(idx) <==> a.contains(idx) || b.contains(idx) by {
            assert(rest.contains(idx) <==> a.contains(idx) || b.drop_last().contains(idx));
            if b.drop_last().contains(idx) {
                let k = choose|k: int| 0 <= k < b.drop_last().len() && b.drop_last()[k] == idx;
                assert(b[k] == idx);
            }
            if b.contains(idx) {
                let k = choose|k: int| 0 <= k < b.len() && b[k] == idx;
                if k < b.len() - 1 {
                    assert(b.drop_last()[k] == idx);
                }
            }
            if rest.contains(idx) {
                let k = choose|k: int| 0 <= k < rest.len() && rest[k] == idx;
                assert(merged[k] == idx);
            }
            if merged.contains(idx) {
                let k = choose|k: int| 0 <= k < merged.len() && merged[k] == idx;
                if k < rest.len() {
                    assert(rest[k] == idx);
                }
            }
            if merged.len() > rest.len() {
                assert(merged[rest.len() as int] == b.last());
            }
        }
    }
}

/// The identifiers of a list of nodes.
pub open spec fn node_ids(graph: ContextGraph, nodes: Seq<NodeIndex>) -> Seq<NodeId> {
    nodes.map_values(|idx: NodeIndex| graph.at(idx).node_core().id)
}

/// The identifiers of a list of charges.
pub open spec fn charge_ids(list: Seq<Charge>) -> Seq<Seq<char>> {
    list.map_values(|charge: Charge| charge.id)
}

/// The steps of a traversal, one for each node.
pub open spec fn steps_of(graph: ContextGraph, footprint: Footprint) -> Seq<TraversalStep> {
    footprint.nodes().map_values(
        |idx: NodeIndex|
            traversal_step(graph.at(idx).node_core().id, footprint.arrival(idx)),
    )
}

/// The step to a node.
pub open spec fn traversal_step(node_id: NodeId, arrival: Option<Arrival>) -> TraversalStep {
    TraversalStep {
        node_id,
        incoming_edge_kind: match arrival {
            Some(arrival) => Some(arrival.edge_kind),
            None => None,
        },
        decision: match arrival {
            Some(arrival) => Some(arrival.decision),
            None => None,
        },
    }
}

/// The two directions of a footprint.
pub struct Footprint {
    pub out: Progress,
    pub incoming: Progress,
}

impl Footprint {
    pub open spec fn cf_out(self) -> nat {
        traversal::total(self.out.fragments)
    }

    pub open spec fn cf_in(self) -> nat {
        traversal::total(self.incoming.fragments)
    }

    /// The size of all fragments of either direction, each counted once.
    pub open spec fn cf_total(self) -> nat {
        traversal::total(self.out.fragments) + traversal::total(
            traversal::beyond(self.incoming.fragments, self.out.fragments),
        )
    }

    /// The size of the fragments that both directions need.
    pub open spec fn cf_overlap(self) -> nat {
        traversal::total(traversal::shared(self.out.fragments, self.incoming.fragments))
    }

    /// The nodes of both directions, in the order in which they were reached.
    pub open spec fn nodes(self) -> Seq<NodeIndex> {
        merged_nodes(self.out.nodes, self.incoming.nodes)
    }

    /// How a node was first reached: outwards, if it was reached that way.
    pub open spec fn arrival(self, idx: NodeIndex) -> Option<Arrival> {
        if self.out.nodes.contains(idx) {
            self.out.reached[idx]
        } else {
            self.incoming.reached[idx]
        }
    }

    /// Whether the sizes can be represented.
    pub open spec fn representable(self) -> bool {
        self.cf_out() <= u32::MAX && self.cf_in() <= u32::MAX && self.cf_total() <= u32::MAX
    }
}

impl<P: BoundaryPolicy> CfSolver<P> {
    /// The traversal outwards from some nodes.
    pub open spec fn out_walk(&self, max_tokens: Option<u32>) -> Walk<P> {
        Walk {
            graph: *self.graph,
            policy: *self.boundary_policy,
            direction: Direction::Out,
            limit: max_tokens,
            prepaid: Seq::empty(),
        }
    }

    /// The traversal inwards, after fragments were paid for.
    pub open spec fn in_walk(&self, max_tokens: Option<u32>, prepaid: Seq<Charge>) -> Walk<P> {
        Walk {
            graph: *self.graph,
            policy: *self.boundary_policy,
            direction: Direction::In,
            limit: max_tokens,
            prepaid,
        }
    }

    /// The footprint of some nodes. What the traversal outwards paid for does not
    /// count towards the limit again when traversing inwards.
    pub open spec fn footprint(&self, starts: Seq<NodeIndex>, max_tokens: Option<u32>) -> Footprint {
        let out = self.out_walk(max_tokens).outcome(starts);
        Footprint { out, incoming: self.in_walk(max_tokens, out.fragments).outcome(starts) }
    }

    /// A footprint consists of nodes of the graph.
    pub proof fn lemma_footprint_nodes(&self, starts: Seq<NodeIndex>, max_tokens: Option<u32>)
        requires
            self.graph.wf(),
            forall|i: int| 0 <= i < starts.len() ==> self.graph.has(#[trigger] starts[i]),
        ensures
            ({
                let nodes = self.footprint(starts, max_tokens).nodes();
                forall|i: int| 0 <= i < nodes.len() ==> self.graph.has(#[trigger] nodes[i])
            }),
    {
        let footprint = self.footprint(starts, max_tokens);
        let nodes = footprint.nodes();
        self.out_walk(max_tokens).lemma_nodes(starts);
        self.in_walk(max_tokens, footprint.out.fragments).lemma_nodes(starts);
        lemma_merged_nodes(footprint.out.nodes, footprint.incoming.nodes);
        assert forall|i: int| 0 <= i < nodes.len() implies self.graph.has(#[trigger] nodes[i]) by {
            let node = nodes[i];
            if footprint.out.nodes.contains(node) {
                let k = choose|k: int|
                    0 <= k < footprint.out.nodes.len() && footprint.out.nodes[k] == node;
                assert(self.graph.has(footprint.out.nodes[k]));
            } else {
                let k = choose|k: int|
                    0 <= k < footprint.incoming.nodes.len() && footprint.incoming.nodes[k] == node;
                assert(self.graph.has(footprint.incoming.nodes[k]));
            }
        }
    }

    /// Whether every step of a result says by which kind of edge and with which decision
    /// its node was first reached, but for the start nodes.
    pub open spec fn steps_described(
        &self,
        r: CfResult,
        starts: Seq<NodeIndex>,
        footprint: Footprint,
    ) -> bool {
        &&& r.traversal_steps@.len() == footprint.nodes().len()
        &&& forall|k: int|
            #![trigger r.traversal_steps@[k]]
            0 <= k < r.traversal_steps@.len() ==> {
                let step = r.traversal_steps@[k];
                let is_start = starts.contains(footprint.nodes()[k]);
                &&& step.node_id == self.graph.at(footprint.nodes()[k]).node_core().id
                &&& step.incoming_edge_kind is Some <==> !is_start
                &&& step.decision is Some <==> !is_start
            }
    }

    proof fn lemma_steps_described(
        &self,
        r: CfResult,
        starts: Seq<NodeIndex>,
        max_tokens: Option<u32>,
    )
        requires
            self.graph.wf(),
            forall|i: int| 0 <= i < starts.len() ==> self.graph.has(#[trigger] starts[i]),
            self.reports(r, self.footprint(starts, max_tokens)),
        ensures
            self.steps_described(r, starts, self.footprint(starts, max_tokens)),
    {
        let footprint = self.footprint(starts, max_tokens);
        self.out_walk(max_tokens).law_nodes_are_reached_by_moves(starts);
        self.in_walk(max_tokens, footprint.out.fragments).law_nodes_are_reached_by_moves(starts);
        lemma_merged_nodes(footprint.out.nodes, footprint.incoming.nodes);
        assert forall|k: int|
            #![trigger r.traversal_steps@[k]]
            0 <= k < r.traversal_steps@.len() implies ({
            let step = r.traversal_steps@[k];
            let is_start = starts.contains(footprint.nodes()[k]);
            &&& step.node_id == self.graph.at(footprint.nodes()[k]).node_core().id
            &&& step.incoming_edge_kind is Some <==> !is_start
            &&& step.decision is Some <==> !is_start
        }) by {
            let idx = footprint.nodes()[k];
            assert(footprint.out.nodes.contains(idx) || footprint.incoming.nodes.contains(idx));
        }
    }

    /// Whether a result reports a footprint.
    pub open spec fn reports(&self, r: CfResult, footprint: Footprint) -> bool {
        let ids = node_ids(*self.graph, footprint.nodes());
        &&& r.reachable_nodes_ordered@ == ids
        &&& r.reachable_set@ == ids.to_set()
        &&& r.reachable_nodes_by_layer@.len() == 1
        &&& r.reachable_nodes_by_layer@[0]@ == ids
        &&& r.traversal_steps@ == steps_of(*self.graph, footprint)
        &&& r.cf_out == footprint.cf_out()
        &&& r.cf_in == footprint.cf_in()
        &&& r.cf_total == footprint.cf_total()
        &&& r.total_context_size == footprint.cf_total()
        &&& r.cf_overlap == footprint.cf_overlap()
        &&& text::texts(r.out_fragments@) == sort::sorted_texts(
            charge_ids(footprint.out.fragments),
        )
        &&& text::texts(r.in_fragments@) == sort::sorted_texts(
            charge_ids(footprint.incoming.fragments),
        )
        &&& r.out_fragments@.len() == footprint.out.fragments.len()
        &&& r.in_fragments@.len() == footprint.incoming.fragments.len()
        &&& r.boundary_stops@ == footprint.out.stops + footprint.incoming.stops
        &&& r.unresolved_states@ == footprint.out.unresolved + footprint.incoming.unresolved
        &&& r.truncated == (footprint.out.truncated || footprint.incoming.truncated)
        &&& r.boundary_policy_id@ == self.boundary_policy.name()
        &&& r.size_function_id@ == self.graph.size_function_id@
        &&& r.measurement_scope_id@ == self.graph.measurement_scope_id@
        &&& r.graph_total_references == self.graph.coverage.total_references
        &&& r.graph_unresolved_calls == self.graph.coverage.unresolved_calls
        &&& r.graph_total_functions == self.graph.coverage.total_functions
        &&& r.graph_functions_with_explicit_fragments
            == self.graph.coverage.functions_with_explicit_fragments
    }

    /// The steps to the nodes of a footprint.
    fn steps_of(
        &self,
        ordered: &Vec<NodeIndex>,
        out: &DirectionalTraversal,
        incoming: &DirectionalTraversal,
    ) -> (r: Vec<TraversalStep>)
        requires
            self.graph.wf(),
            forall|i: int| 0 <= i < ordered@.len() ==> self.graph.has(#[trigger] ordered@[i]),
            out.wf(),
            incoming.wf(),
            ordered@ == merged_nodes(out.progress().nodes, incoming.progress().nodes),
            out.progress().nodes_reached(),
            incoming.progress().nodes_reached(),
        ensures
            r@ == steps_of(
                *self.graph,
                Footprint { out: out.progress(), incoming: incoming.progress() },
            ),
    {
        let ghost footprint = Footprint { out: out.progress(), incoming: incoming.progress() };
        let mut r: Vec<TraversalStep> = Vec::new();
        let mut i: usize = 0;
        while i < ordered.len()
            invariant
                self.graph.wf(),
                forall|i: int| 0 <= i < ordered@.len() ==> self.graph.has(#[trigger] ordered@[i]),
                out.wf(),
                incoming.wf(),
                footprint == (Footprint { out: out.progress(), incoming: incoming.progress() }),
                ordered@ == footprint.nodes(),
                footprint.out.nodes_reached(),
                footprint.incoming.nodes_reached(),
                i <= ordered@.len(),
                r@ == steps_of(*self.graph, footprint).take(i as int),
            decreases ordered@.len() - i,
        {
            let idx = ordered[i];
            proof {
                lemma_merged_nodes(footprint.out.nodes, footprint.incoming.nodes);
                assert(footprint.out.nodes.contains(idx) || footprint.incoming.nodes.contains(
                    footprint.nodes()[i as int],
                ));
                assert(NodeIndex { ix: idx.ix } == idx);
            }
            let found = if out.seen_nodes.contains(&idx.ix) {
                out.arrivals.get(&idx.ix)
            } else {
                incoming.arrivals.get(&idx.ix)
            };
            let arrival: Option<Arrival> = match found {
                Some(arrival) => *arrival,
                None => None,
            };
            assert(arrival == footprint.arrival(idx));
            r.push(
                TraversalStep {
                    node_id: self.graph.node(idx).node_core().id,
                    incoming_edge_kind: match arrival {
                        Some(arrival) => Some(arrival.edge_kind),
                        None => None,
                    },
                    decision: match arrival {
                        Some(arrival) => Some(arrival.decision),
                        None => None,
                    },
                },
            );
            i += 1;
            assert(r@ =~= steps_of(self.context(), footprint).take(i as int));
        }
        assert(steps_of(self.context(), footprint).take(i as int) =~= steps_of(
            self.context(),
            footprint,
        ));
        r
    }

    /// Computes the footprint of a set of start nodes, within a limit if one is
    /// given. There is no result where a size is too large to be represented.
    pub fn try_compute_cf(&self, starts: &[NodeIndex], max_tokens: Option<u32>) -> (r: Option<
        CfResult,
    >)
        requires
            self.graph.wf(),
            forall|i: int| 0 <= i < starts@.len() ==> self.graph.has(#[trigger] starts@[i]),
        ensures
            r is Some <==> self.footprint(starts@, max_tokens).representable(),
            r is Some ==> self.reports(r->0, self.footprint(starts@, max_tokens)),
            r is Some ==> self.steps_described(
                r->0,
                starts@,
                self.footprint(starts@, max_tokens),
            ),
    {
        let nothing: SymbolTable<u32> = SymbolTable::new();
        assert(charges_of(nothing) =~= Seq::empty());
        let out = self.traverse_reasoning(starts, Direction::Out, max_tokens, &nothing);
        let cf_out: u128 = sum_of_sizes(&out.fragments);
        let incoming = self.traverse_reasoning(
            starts,
            Direction::In,
            max_tokens,
            &out.fragments,
        );
        let ghost footprint = self.footprint(starts@, max_tokens);
        assert(out.progress() == footprint.out);
        assert(incoming.progress() == footprint.incoming);
        let cf_in: u128 = sum_of_sizes(&incoming.fragments);
        let cf_total: u128 = incoming.spent;
        assert(cf_total == footprint.cf_total());
        if cf_out > u32::MAX as u128 || cf_in > u32::MAX as u128 || cf_total > u32::MAX as u128 {
            return None;
        }
        let cf_overlap: u128 = sum_of_shared_sizes(&out.fragments, &incoming.fragments);
        proof {
            lemma_shared_total(footprint.out.fragments, footprint.incoming.fragments);
            self.out_walk(max_tokens).law_nodes_are_reached_by_moves(starts@);
            self.in_walk(max_tokens, footprint.out.fragments).law_nodes_are_reached_by_moves(starts@);
            self.lemma_footprint_nodes(starts@, max_tokens);
        }
        let ordered = merge_nodes(&out.nodes, &incoming.nodes);
        assert(ordered@ == footprint.nodes());
        let ids = self.ids_of(&ordered);
        let mut reachable_set: HashSet<NodeId> = HashSet::new();
        let mut i: usize = 0;
        while i < ids.len()
            invariant
                i <= ids@.len(),
                reachable_set@ == ids@.take(i as int).to_set(),
            decreases ids@.len() - i,
        {
            proof {
                assert(ids@.take(i + 1) =~= ids@.take(i as int).push(ids@[i as int]));
                ids@.take(i as int).lemma_push_to_set_commute(ids@[i as int]);
            }
            reachable_set.insert(ids[i]);
            i += 1;
        }
        let traversal_steps = self.steps_of(&ordered, &out, &incoming);
        assert(ids@.take(i as int) =~= ids@);
        let out_fragments = out.sorted_fragment_ids();
        let in_fragments = incoming.sorted_fragment_ids();
        let mut boundary_stops = copy_stops(&out.boundary_stops);
        let mut more_stops = copy_stops(&incoming.boundary_stops);
        boundary_stops.append(&mut more_stops);
        let mut unresolved_states = copy_states(&out.unresolved_states);
        let mut more_states = copy_states(&incoming.unresolved_states);
        unresolved_states.append(&mut more_states);
        let layer = copy_ids(&ids);
        let mut layers: Vec<Vec<NodeId>> = Vec::new();
        layers.push(layer);
        let result = CfResult {
            reachable_set,
            reachable_nodes_ordered: ids,
            reachable_nodes_by_layer: layers,
            traversal_steps,
            total_context_size: cf_total as u32,
            cf_total: cf_total as u32,
            cf_out: cf_out as u32,
            cf_in: cf_in as u32,
            cf_overlap: cf_overlap as u32,
            out_fragments,
            in_fragments,
            boundary_stops,
            unresolved_states,
            truncated: out.truncated || incoming.truncated,
            boundary_policy_id: self.boundary_policy.id(),
            size_function_id: self.graph.size_function_id.clone(),
            measurement_scope_id: self.graph.measurement_scope_id.clone(),
            graph_total_references: self.graph.coverage.total_references,
            graph_unresolved_calls: self.graph.coverage.unresolved_calls,
            graph_total_functions: self.graph.coverage.total_functions,
            graph_functions_with_explicit_fragments: self.graph.coverage
                .functions_with_explicit_fragments,
        };
        proof {
            self.lemma_steps_described(result, starts@, max_tokens);
        }
        Some(result)
    }

    /// Computes the footprint of a set of start nodes, within a limit if one is given.
    pub fn compute_cf(&self, starts: &[NodeIndex], max_tokens: Option<u32>) -> (r: CfResult)
        requires
            self.graph.wf(),
            forall|i: int| 0 <= i < starts@.len() ==> self.graph.has(#[trigger] starts@[i]),
            self.footprint(starts@, max_tokens).representable(),
        ensures
            self.reports(r, self.footprint(starts@, max_tokens)),
            self.steps_described(r, starts@, self.footprint(starts@, max_tokens)),
    {
        self.try_compute_cf(starts, max_tokens).unwrap()
    }

    /// Computes the size of the footprint of one node, without a limit. There is no
    /// result where a size is too large to be represented.
    pub fn try_compute_cf_total(&self, start: NodeIndex) -> (r: Option<u32>)
        requires
            self.graph.wf(),
            self.graph.has(start),
        ensures
            r is Some <==> self.footprint(seq![start], None).representable(),
            r is Some ==> r->0 == self.footprint(seq![start], None).cf_total(),
    {
        let mut starts: Vec<NodeIndex> = Vec::new();
        starts.push(start);
        assert(starts@ =~= seq![start]);
        match self.try_compute_cf(starts.as_slice(), None) {
            Some(result) => Some(result.cf_total),
            None => None,
        }
    }

    /// Computes the size of the footprint of one node, without a limit.
    pub fn compute_cf_total(&self, start: NodeIndex) -> (r: u32)
        requires
            self.graph.wf(),
            self.graph.has(start),
            self.footprint(seq![start], None).representable(),
        ensures
            r == self.footprint(seq![start], None).cf_total(),
    {
        self.try_compute_cf_total(start).unwrap()
    }

    /// The identifiers of nodes.
    fn ids_of(&self, nodes: &Vec<NodeIndex>) -> (r: Vec<NodeId>)
        requires
            forall|i: int| 0 <= i < nodes@.len() ==> self.graph.has(#[trigger] nodes@[i]),
        ensures
            r@ == node_ids(*self.graph, nodes@),
    {
        let mut r: Vec<NodeId> = Vec::new();
        let mut i: usize = 0;
        while i < nodes.len()
            invariant
                forall|i: int| 0 <= i < nodes@.len() ==> self.graph.has(#[trigger] nodes@[i]),
                i <= nodes@.len(),
                r@ == node_ids(*self.graph, nodes@.take(i as int)),
            decreases nodes@.len() - i,
        {
            r.push(self.graph.node(nodes[i]).node_core().id);
            i += 1;
            assert(r@ =~= node_ids(*self.graph, nodes@.take(i as int)));
        }
        assert(nodes@.take(i as int) =~= nodes@);
        r
    }
}

/// The sum of the sizes in a table.
fn sum_of_sizes(table: &SymbolTable<u32>) -> (r: u128)
    requires
        table.wf(),
    ensures
        r == traversal::total(charges_of(*table)),
{
    let ghost list = charges_of(*table);
    let n: usize = table.len();
    let mut sum: u128 = 0;
    let mut i: usize = 0;
    while i < n
        invariant
            table.wf(),
            n == table.symbols().len(),
            list == charges_of(*table),
            i <= n,
            sum == traversal::total(list.take(i as int)),
        decreases n - i,
    {
        proof {
            assert(list.take(i + 1).drop_last() =~= list.take(i as int));
            lemma_take_total(list, i as int);
            lemma_charges_bound(*table);
        }
        sum = sum + *table.value_at(i) as u128;
        i += 1;
    }
    assert(list.take(n as int) =~= list);
    sum
}

/// A part of a list costs no more than the list.
proof fn lemma_take_total(list: Seq<Charge>, k: int)
    requires
        0 <= k <= list.len(),
    ensures
        traversal::total(list.take(k)) <= traversal::total(list),
    decreases list.len(),
{
    if k == list.len() {
        assert(list.take(k) =~= list);
    } else {
        assert(list.drop_last().take(k) =~= list.take(k));
        lemma_take_total(list.drop_last(), k);
    }
}

/// What lists share costs no more than the list.
proof fn lemma_shared_total(list: Seq<Charge>, other: Seq<Charge>)
    ensures
        traversal::total(traversal::shared(list, other)) <= traversal::total(list),
    decreases list.len(),
{
    if list.len() > 0 {
        lemma_shared_total(list.drop_last(), other);
        let rest = traversal::shared(list.drop_last(), other);
        assert(rest.push(list.last()).drop_last() =~= rest);
    }
}

/// The sum of the sizes in a table of those fragments that are in another too.
fn sum_of_shared_sizes(table: &SymbolTable<u32>, other: &SymbolTable<u32>) -> (r: u128)
    requires
        table.wf(),
        other.wf(),
    ensures
        r == traversal::total(traversal::shared(charges_of(*table), charges_of(*other))),
{
    let ghost list = charges_of(*table);
    let ghost rest = charges_of(*other);
    let n: usize = table.len();
    let mut sum: u128 = 0;
    let mut i: usize = 0;
    while i < n
        invariant
            table.wf(),
            other.wf(),
            n == table.symbols().len(),
            list == charges_of(*table),
            rest == charges_of(*other),
            i <= n,
            sum == traversal::total(traversal::shared(list.take(i as int), rest)),
        decreases n - i,
    {
        proof {
            assert(list.take(i + 1).drop_last() =~= list.take(i as int));
            let before = traversal::shared(list.take(i as int), rest);
            assert(before.push(list[i as int]).drop_last() =~= before);
            lemma_shared_total(list.take(i as int), rest);
            lemma_take_total(list, i as int);
            lemma_charges_bound(*table);
            lemma_charges_of(*other);
        }
        if other.contains_key(table.key_at(i).as_str()) {
            sum = sum + *table.value_at(i) as u128;
        }
        i += 1;
    }
    assert(list.take(n as int) =~= list);
    sum
}

/// The nodes of one list, and then those of another that are new.
fn merge_nodes(a: &Vec<NodeIndex>, b: &Vec<NodeIndex>) -> (r: Vec<NodeIndex>)
    ensures
        r@ == merged_nodes(a@, b@),
{
    let mut r: Vec<NodeIndex> = Vec::new();
    let mut seen: HashSet<u32> = HashSet::new();
    let mut i: usize = 0;
    while i < a.len()
        invariant
            i <= a@.len(),
            r@ == a@.take(i as int),
            forall|x: u32| #[trigger] seen@.contains(x) <==> r@.contains(NodeIndex { ix: x }),
        decreases a@.len() - i,
    {
        let ghost before = r@;
        r.push(a[i]);
        seen.insert(a[i].ix);
        proof {
            lemma_push_contains(before, a@[i as int]);
            assert(r@ =~= a@.take(i + 1));
        }
        i += 1;
    }
    assert(a@.take(i as int) =~= a@);
    let mut j: usize = 0;
    assert(b@.take(0) =~= Seq::empty());
    while j < b.len()
        invariant
            j <= b@.len(),
            r@ == merged_nodes(a@, b@.take(j as int)),
            forall|x: u32| #[trigger] seen@.contains(x) <==> r@.contains(NodeIndex { ix: x }),
        decreases b@.len() - j,
    {
        let ghost before = r@;
        assert(b@.take(j + 1).drop_last() =~= b@.take(j as int));
        assert(NodeIndex { ix: b@[j as int].ix } == b@[j as int]);
        if !seen.contains(&b[j].ix) {
            seen.insert(b[j].ix);
            r.push(b[j]);
            proof {
                lemma_push_contains(before, b@[j as int]);
            }
        }
        j += 1;
    }
    assert(b@.take(j as int) =~= b@);
    r
}

/// What a longer list contains.
proof fn lemma_push_contains(list: Seq<NodeIndex>, node: NodeIndex)
    ensures
        forall|x: NodeIndex| #[trigger]
            list.push(node).contains(x) <==> list.contains(x) || x == node,
{
    assert forall|x: NodeIndex| #[trigger]
        list.push(node).contains(x) <==> list.contains(x) || x == node by {
        if list.contains(x) {
            let k = choose|k: int| 0 <= k < list.len() && list[k] == x;
            assert(list.push(node)[k] == x);
        }
        if list.push(node).contains(x) {
            let k = choose|k: int| 0 <= k < list.push(node).len() && list.push(node)[k] == x;
            if k < list.len() {
                assert(list[k] == x);
            }
        }
        assert(list.push(node)[list.len() as int] == node);
    }
}

fn copy_stops(list: &Vec<BoundaryStop>) -> (r: Vec<BoundaryStop>)
    ensures
        r@ == list@,
{
    let mut r: Vec<BoundaryStop> = Vec::new();
    let mut i: usize = 0;
    while i < list.len()
        invariant
            i <= list@.len(),
            r@ == list@.take(i as int),
        decreases list@.len() - i,
    {
        r.push(list[i]);
        i += 1;
        assert(r@ =~= list@.take(i as int));
    }
    assert(list@.take(i as int) =~= list@);
    r
}

fn copy_states(list: &Vec<ReasoningState>) -> (r: Vec<ReasoningState>)
    ensures
        r@ == list@,
{
    let mut r: Vec<ReasoningState> = Vec::new();
    let mut i: usize = 0;
    while i < list.len()
        invariant
            i <= list@.len(),
            r@ == list@.take(i as int),
        decreases list@.len() - i,
    {
        r.push(list[i]);
        i += 1;
        assert(r@ =~= list@.take(i as int));
    }
    assert(list@.take(i as int) =~= list@);
    r
}

fn copy_ids(list: &Vec<NodeId>) -> (r: Vec<NodeId>)
    ensures
        r@ == list@,
{
    let mut r: Vec<NodeId> = Vec::new();
    let mut i: usize = 0;
    while i < list.len()
        invariant
            i <= list@.len(),
            r@ == list@.take(i as int),
        decreases list@.len() - i,
    {
        r.push(list[i]);
        i += 1;
        assert(r@ =~= list@.take(i as int));
    }
    assert(list@.take(i as int) =~= list@);
    r
}

} // verus!
