//! What boundaries do to footprints: where traversal ends, and that a policy that
//! stops more often never needs more.

use crate::domain::closure;
use crate::domain::edge::EdgeKind;
use crate::domain::graph::{ContextGraph, NodeIndex};
use crate::domain::measure;
use crate::domain::node::Node;
use crate::domain::policy;
use crate::domain::policy::{
    BoundaryDecision, BoundaryPolicy, ReasoningMode, ReasoningRelation, SyntacticBoundaryPolicy,
};
use crate::domain::solver::CfSolver;
use crate::domain::traversal;
use crate::domain::traversal::{
    BoundaryStop, Charge, Direction, Move, Progress, ReasoningState, Walk,
};
use crate::domain::type_closure;
use crate::domain::type_registry::{TypeInfo, TypeRegistry};
use vstd::prelude::*;

verus! {

/// Whether one policy stops wherever another does.
pub open spec fn stops_wherever<P: BoundaryPolicy, Q: BoundaryPolicy>(p: P, q: Q) -> bool {
    &&& forall|
        mode: ReasoningMode,
        relation: ReasoningRelation,
        source: Node,
        target: Node,
        types: TypeRegistry,
    |
        q.decision(mode, relation, source, target, types) == BoundaryDecision::StopAtSurface
            ==> #[trigger] p.decision(mode, relation, source, target, types)
            == BoundaryDecision::StopAtSurface
    &&& forall|mode: ReasoningMode, node: Node, types: TypeRegistry|
        q.contract_decision(mode, node, types) == BoundaryDecision::StopAtSurface
            ==> #[trigger] p.contract_decision(mode, node, types)
            == BoundaryDecision::StopAtSurface
}

/// Whether a state is about the same node as another, and asks no more of it.
pub open spec fn asks_no_more(a: ReasoningState, b: ReasoningState) -> bool {
    &&& a.node_index == b.node_index
    &&& a.direction == b.direction
    &&& a.reasoning_mode == b.reasoning_mode || a.reasoning_mode == ReasoningMode::NeedSurface
}

/// Whether all fragments with the same name have the same size, whichever states of
/// a graph need them.
pub open spec fn sizes_consistent(graph: ContextGraph) -> bool {
    forall|s: ReasoningState, t: ReasoningState, i: int, j: int|
        #![trigger traversal::required(graph, s)[i], traversal::required(graph, t)[j]]
        graph.has(s.node_index) && graph.has(t.node_index) && 0 <= i < traversal::required(
            graph,
            s,
        ).len() && 0 <= j < traversal::required(graph, t).len() && traversal::required(
            graph,
            s,
        )[i].id == traversal::required(graph, t)[j].id ==> traversal::required(graph, s)[i].size
            == traversal::required(graph, t)[j].size
}

/// A state that asks no more needs no more fragments.
proof fn lemma_required(graph: ContextGraph, a: ReasoningState, b: ReasoningState, c: Charge)
    requires
        asks_no_more(a, b),
        traversal::required(graph, a).contains(c),
    ensures
        traversal::required(graph, b).contains(c),
{
    let x = traversal::required(graph, a);
    let y = traversal::required(graph, b);
    let i = choose|i: int| 0 <= i < x.len() && x[i] == c;
    assert(y[i] == c);
}

/// Where the moves to parents stand that also look at the uses of the parents.
pub(crate) proof fn lemma_parent_move(parents: Seq<(NodeIndex, EdgeKind)>, direction: Direction, k: int)
    requires
        0 <= k < parents.len(),
    ensures
        ({
            let plain = traversal::parent_moves(parents, false, direction);
            let with_usage = traversal::parent_moves(parents, true, direction);
            &&& plain.len() == parents.len()
            &&& with_usage.len() == 2 * parents.len()
            &&& plain[k] == Move::Follow {
                target: parents[k].0,
                relation: ReasoningRelation::ParentContract,
                enter_mode: ReasoningMode::NeedSurface,
            }
            &&& with_usage[2 * k] == plain[k]
            &&& with_usage[2 * k + 1] == Move::Continue(
                ReasoningState {
                    node_index: parents[k].0,
                    direction,
                    reasoning_mode: ReasoningMode::NeedParentUsage,
                },
            )
        }),
    decreases parents.len(),
{
    let rest = parents.drop_last();
    let plain = traversal::parent_moves(rest, false, direction);
    let with_usage = traversal::parent_moves(rest, true, direction);
    if rest.len() > 0 {
        lemma_parent_move(
            rest,
            direction,
            if k < rest.len() {
                k
            } else {
                0
            },
        );
    }
    assert(plain.len() == rest.len() && with_usage.len() == 2 * rest.len());
    if k < rest.len() {
        assert(rest[k] == parents[k]);
        assert(traversal::parent_moves(parents, false, direction)[k] == plain[k]);
        assert(traversal::parent_moves(parents, true, direction)[2 * k] == with_usage[2 * k]);
    } else {
        assert(parents[k] == parents.last());
    }
}

proof fn lemma_parent_moves_len(parents: Seq<(NodeIndex, EdgeKind)>, direction: Direction)
    ensures
        traversal::parent_moves(parents, false, direction).len() == parents.len(),
    decreases parents.len(),
{
    if parents.len() > 0 {
        lemma_parent_moves_len(parents.drop_last(), direction);
    }
}

/// Where one traversal goes, another goes too whose policy stops less often.
proof fn lemma_follows<P: BoundaryPolicy, Q: BoundaryPolicy>(
    p: Walk<P>,
    q: Walk<Q>,
    a: ReasoningState,
    next: ReasoningState,
) -> (r: ReasoningState)
    requires
        p.graph == q.graph,
        stops_wherever(p.policy, q.policy),
        p.leads_to(a, next),
    ensures
        q.leads_to(a, r),
        asks_no_more(next, r),
{
    let graph = p.graph;
    let k = choose|k: int|
        0 <= k < p.moves(a).len() && p.successor(a, #[trigger] p.moves(a)[k]) == Some(next);
    let idx = a.node_index;
    let parents = graph.incoming(idx, Some(EdgeKind::OverriddenBy));
    let step = p.moves(a)[k];
    if p.moves(a) == q.moves(a) {
        assert(q.moves(a)[k] == step);
        match q.successor(a, step) {
            Some(r) => r,
            None => {
                assert(false);
                next
            },
        }
    } else {
        let direction = a.direction;
        let gate = traversal::gate_mode(a.reasoning_mode);
        assert(traversal::is_usage(a.reasoning_mode));
        assert(!p.leaky(gate, idx));
        assert(q.leaky(gate, idx));
        lemma_parent_moves_len(parents, direction);
        lemma_parent_move(parents, direction, k);
        let callers = traversal::caller_moves(graph, idx);
        let with_usage = traversal::parent_moves(parents, true, direction);
        let at = callers.len() + 2 * k;
        let other = with_usage[2 * k];
        assert(q.moves(a)[at] == other);
        match q.successor(a, other) {
            Some(r) => r,
            None => {
                assert(false);
                next
            },
        }
    }
}

/// A chain of one traversal has a counterpart in another whose policy stops less
/// often, and which starts from no fewer nodes.
proof fn lemma_chain_follows<P: BoundaryPolicy, Q: BoundaryPolicy>(
    p: Walk<P>,
    q: Walk<Q>,
    few: Seq<NodeIndex>,
    many: Seq<NodeIndex>,
    chain: Seq<ReasoningState>,
) -> (r: Seq<ReasoningState>)
    requires
        p.graph == q.graph,
        p.direction == q.direction,
        stops_wherever(p.policy, q.policy),
        forall|i: int| 0 <= i < few.len() ==> many.contains(#[trigger] few[i]),
        p.is_chain(few, chain),
    ensures
        q.is_chain(many, r),
        asks_no_more(chain.last(), r.last()),
    decreases chain.len(),
{
    if chain.len() == 1 {
        let list = traversal::initial_states(few, p.direction);
        let more = traversal::initial_states(many, q.direction);
        let i = choose|i: int| 0 <= i < list.len() && list[i] == chain[0];
        assert(many.contains(few[i]));
        let j = choose|j: int| 0 <= j < many.len() && many[j] == few[i];
        assert(more[j] == chain[0]);
        chain
    } else {
        let rest = chain.drop_last();
        assert forall|i: int| 0 <= i < rest.len() - 1 implies p.leads_to(
            #[trigger] rest[i],
            rest[i + 1],
        ) by {
            assert(p.leads_to(chain[i], chain[i + 1]));
        }
        assert(rest[0] == chain[0]);
        let before = lemma_chain_follows(p, q, few, many, rest);
        assert(p.leads_to(chain[chain.len() - 2], chain[chain.len() - 2 + 1]));
        let a = rest.last();
        let next = chain.last();
        assert(p.leads_to(a, next));
        lemma_surface_leads_nowhere(p, a, next);
        let b = lemma_follows(p, q, a, next);
        assert(before.last() == a);
        let r = before.push(b);
        assert forall|i: int| 0 <= i < r.len() - 1 implies q.leads_to(
            #[trigger] r[i],
            r[i + 1],
        ) by {
            assert(r[i] == before[i]);
            if i < before.len() - 1 {
                assert(q.leads_to(before[i], before[i + 1]));
                assert(r[i + 1] == before[i + 1]);
            }
        }
        assert(r[0] == before[0]);
        r
    }
}

/// A state that leads on does not ask for a surface only.
proof fn lemma_surface_leads_nowhere<P: BoundaryPolicy>(
    p: Walk<P>,
    a: ReasoningState,
    next: ReasoningState,
)
    requires
        p.leads_to(a, next),
    ensures
        a.reasoning_mode != ReasoningMode::NeedSurface,
{
}

/// Without a limit, a traversal whose policy stops wherever that of another does, and
/// which starts from no other nodes, reaches no node and needs no fragment that the
/// other does not.
pub proof fn law_boundaries_only_take_away<P: BoundaryPolicy, Q: BoundaryPolicy>(
    p: Walk<P>,
    q: Walk<Q>,
    few: Seq<NodeIndex>,
    many: Seq<NodeIndex>,
)
    requires
        p.graph == q.graph,
        p.graph.wf(),
        p.direction == q.direction,
        p.limit is None,
        q.limit is None,
        stops_wherever(p.policy, q.policy),
        forall|i: int| 0 <= i < few.len() ==> many.contains(#[trigger] few[i]),
        forall|i: int| 0 <= i < many.len() ==> q.graph.has(#[trigger] many[i]),
    ensures
        forall|id: Seq<char>| #[trigger]
            traversal::charged(p.outcome(few).fragments, id) ==> traversal::charged(
                q.outcome(many).fragments,
                id,
            ),
        forall|idx: NodeIndex| #[trigger]
            p.outcome(few).nodes.contains(idx) ==> q.outcome(many).nodes.contains(idx),
{
    let small = p.outcome(few);
    let large = q.outcome(many);
    assert forall|i: int| 0 <= i < few.len() implies p.graph.has(#[trigger] few[i]) by {
        assert(many.contains(few[i]));
        let j = choose|j: int| 0 <= j < many.len() && many[j] == few[i];
        assert(q.graph.has(many[j]));
    }
    p.law_visits_what_is_derivable(few);
    q.law_visits_what_is_derivable(many);
    p.law_charges_what_is_needed(few);
    q.law_charges_what_is_needed(many);
    p.law_nodes_are_visited(few);
    q.law_nodes_are_visited(many);
    assert forall|id: Seq<char>| #[trigger]
        traversal::charged(small.fragments, id) implies traversal::charged(
        large.fragments,
        id,
    ) by {
        let i = choose|i: int|
            0 <= i < small.fragments.len() && (#[trigger] small.fragments[i]).id == id;
        let c = small.fragments[i];
        assert(p.needed(small, c));
        let s = choose|s: ReasoningState| #[trigger] small.visited.contains(s) && p.needs(s, c);
        let t = lemma_counterpart(p, q, few, many, s);
        lemma_required(p.graph, s, t, c);
        assert(q.needs(t, c));
    }
    assert forall|idx: NodeIndex| #[trigger]
        small.nodes.contains(idx) implies large.nodes.contains(idx) by {
        let s = choose|s: ReasoningState| #[trigger]
            small.visited.contains(s) && s.node_index == idx;
        let t = lemma_counterpart(p, q, few, many, s);
        assert(large.visited.contains(t) && t.node_index == idx);
    }
}

proof fn lemma_counterpart<P: BoundaryPolicy, Q: BoundaryPolicy>(
    p: Walk<P>,
    q: Walk<Q>,
    few: Seq<NodeIndex>,
    many: Seq<NodeIndex>,
    s: ReasoningState,
) -> (t: ReasoningState)
    requires
        p.graph == q.graph,
        p.direction == q.direction,
        stops_wherever(p.policy, q.policy),
        forall|i: int| 0 <= i < few.len() ==> many.contains(#[trigger] few[i]),
        p.derivable(few, s),
    ensures
        q.derivable(many, t),
        asks_no_more(s, t),
{
    let chain = choose|chain: Seq<ReasoningState>| #[trigger]
        p.is_chain(few, chain) && chain.last() == s;
    let r = lemma_chain_follows(p, q, few, many, chain);
    assert(q.is_chain(many, r) && r.last() == r.last());
    r.last()
}

/// A policy stops wherever another does that asks for better documentation, and does
/// not rely on documented functions where the first does not.
pub proof fn law_lower_demands_stop_more(p: SyntacticBoundaryPolicy, q: SyntacticBoundaryPolicy)
    requires
        q.params.doc_threshold.spec_at_least(p.params.doc_threshold),
        q.params.treat_typed_documented_function_as_boundary
            ==> p.params.treat_typed_documented_function_as_boundary,
    ensures
        stops_wherever(p, q),
{
}

/// The syntactic policy never enters an external target.
pub proof fn law_external_targets_are_not_entered(
    p: SyntacticBoundaryPolicy,
    mode: ReasoningMode,
    relation: ReasoningRelation,
    source: Node,
    target: Node,
    types: TypeRegistry,
)
    requires
        target.node_core().is_external,
    ensures
        p.decision(mode, relation, source, target, types) == BoundaryDecision::StopAtSurface,
        p.contract_decision(mode, target, types) == BoundaryDecision::StopAtSurface,
{
}

/// The syntactic policy stops at a variable that is read and cannot change, and goes on
/// to where the value comes from if it can.
pub proof fn law_reads_stop_at_constants(
    p: SyntacticBoundaryPolicy,
    mode: ReasoningMode,
    source: Node,
    target: Node,
    types: TypeRegistry,
)
    requires
        target is Variable,
        !target.node_core().is_external,
    ensures
        p.decision(mode, ReasoningRelation::Read, source, target, types)
            == BoundaryDecision::StopAtSurface <==> !traversal::is_mutable_variable(target),
{
}

/// Whether a function that implements a unit is a boundary depends on that function
/// alone: on what would make it a boundary if it were called.
pub proof fn law_implementors_are_judged_by_their_own_contracts(
    p: SyntacticBoundaryPolicy,
    mode: ReasoningMode,
    overridden: Node,
    caller: Node,
    implementor: Node,
    types: TypeRegistry,
)
    requires
        implementor is Function,
    ensures
        p.decision(mode, ReasoningRelation::DynamicDispatch, overridden, implementor, types)
            == p.decision(mode, ReasoningRelation::Call, caller, implementor, types),
        implementor matches Node::Function(f) ==> !f.core.is_external ==> (p.decision(
            mode,
            ReasoningRelation::DynamicDispatch,
            overridden,
            implementor,
            types,
        ) == BoundaryDecision::StopAtSurface <==> policy::function_boundary(f, types@, p.params)),
{
}

/// Whether two policies decide alike, but that the second enters where the first cannot
/// tell.
pub open spec fn agree_but_for_unknown<P: BoundaryPolicy, Q: BoundaryPolicy>(p: P, q: Q) -> bool {
    &&& forall|
        mode: ReasoningMode,
        relation: ReasoningRelation,
        source: Node,
        target: Node,
        types: TypeRegistry,
    |
        #[trigger] q.decision(mode, relation, source, target, types) == entering(
            p.decision(mode, relation, source, target, types),
        )
    &&& forall|mode: ReasoningMode, node: Node, types: TypeRegistry| #[trigger]
        q.contract_decision(mode, node, types) == entering(p.contract_decision(mode, node, types))
}

/// A decision that enters where it was not clear.
pub open spec fn entering(decision: BoundaryDecision) -> BoundaryDecision {
    match decision {
        BoundaryDecision::Unknown => BoundaryDecision::EnterImplementation,
        BoundaryDecision::StopAtSurface | BoundaryDecision::EnterImplementation => decision,
    }
}

/// Policies that decide alike, but that one enters where the other cannot tell, stop at
/// the same boundaries.
pub proof fn law_not_telling_is_no_stop<P: BoundaryPolicy, Q: BoundaryPolicy>(p: P, q: Q)
    requires
        agree_but_for_unknown(p, q),
    ensures
        stops_wherever(p, q),
        stops_wherever(q, p),
{
    assert forall|
        mode: ReasoningMode,
        relation: ReasoningRelation,
        source: Node,
        target: Node,
        types: TypeRegistry,
    |
        q.decision(mode, relation, source, target, types)
            == BoundaryDecision::StopAtSurface implies #[trigger] p.decision(
        mode,
        relation,
        source,
        target,
        types,
    ) == BoundaryDecision::StopAtSurface by {
        assert(q.decision(mode, relation, source, target, types) == entering(
            p.decision(mode, relation, source, target, types),
        ));
    }
    assert forall|mode: ReasoningMode, node: Node, types: TypeRegistry|
        q.contract_decision(mode, node, types)
            == BoundaryDecision::StopAtSurface implies #[trigger] p.contract_decision(
        mode,
        node,
        types,
    ) == BoundaryDecision::StopAtSurface by {
        assert(q.contract_decision(mode, node, types) == entering(
            p.contract_decision(mode, node, types),
        ));
    }
}

/// Two traversals are the same if their policies stop at the same boundaries: a policy
/// that cannot tell counts as one that does not stop.
pub proof fn law_only_stops_matter<P: BoundaryPolicy, Q: BoundaryPolicy>(
    p: Walk<P>,
    q: Walk<Q>,
    starts: Seq<NodeIndex>,
)
    requires
        p.graph == q.graph,
        p.graph.wf(),
        p.direction == q.direction,
        p.limit == q.limit,
        p.prepaid == q.prepaid,
        stops_wherever(p.policy, q.policy),
        stops_wherever(q.policy, p.policy),
        forall|i: int| 0 <= i < starts.len() ==> p.graph.has(#[trigger] starts[i]),
    ensures
        p.outcome(starts) == q.outcome(starts),
{
    p.lemma_initial_valid(starts);
    lemma_same_run(p, q, traversal::initial(starts, p.direction));
}

proof fn lemma_same_charges<P: BoundaryPolicy, Q: BoundaryPolicy>(
    p: Walk<P>,
    q: Walk<Q>,
    progress: Progress,
    list: Seq<Charge>,
    state: ReasoningState,
)
    requires
        p.limit == q.limit,
        p.prepaid == q.prepaid,
    ensures
        p.charge_all(progress, list, state) == q.charge_all(progress, list, state),
    decreases list.len(),
{
    if list.len() > 0 {
        lemma_same_charges(p, q, progress, list.drop_last(), state);
    }
}

proof fn lemma_same_moves<P: BoundaryPolicy, Q: BoundaryPolicy>(
    p: Walk<P>,
    q: Walk<Q>,
    progress: Progress,
    state: ReasoningState,
    steps: Seq<Move>,
)
    requires
        p.graph == q.graph,
        stops_wherever(p.policy, q.policy),
        stops_wherever(q.policy, p.policy),
    ensures
        p.make_moves(progress, state, steps) == q.make_moves(progress, state, steps),
    decreases steps.len(),
{
    if steps.len() > 0 {
        lemma_same_moves(p, q, progress, state, steps.drop_last());
        let step = steps.last();
        match step {
            Move::Follow { target, relation, .. } | Move::Besides { target, relation, .. } => {
                assert(p.stops(state, target, relation) == q.stops(state, target, relation));
            },
            Move::Continue(_) => {},
        }
        assert(p.successor(state, step) == q.successor(state, step));
        assert(p.stop(state, step) == q.stop(state, step));
        assert(p.arrival(state, step) == q.arrival(state, step));
    }
}

proof fn lemma_same_run<P: BoundaryPolicy, Q: BoundaryPolicy>(
    p: Walk<P>,
    q: Walk<Q>,
    progress: Progress,
)
    requires
        p.valid(progress),
        p.graph == q.graph,
        p.direction == q.direction,
        p.limit == q.limit,
        p.prepaid == q.prepaid,
        stops_wherever(p.policy, q.policy),
        stops_wherever(q.policy, p.policy),
    ensures
        p.run(progress) == q.run(progress),
    decreases p.unvisited(progress), progress.queue.len(),
{
    assert(q.valid(progress)) by {
        assert forall|i: int| 0 <= i < progress.queue.len() implies q.is_state(
            #[trigger] progress.queue[i],
        ) by {
            assert(p.is_state(progress.queue[i]));
        }
        assert forall|s: ReasoningState| #[trigger]
            progress.visited.contains(s) implies q.is_state(s) by {
            assert(p.is_state(s));
        }
    }
    if progress.queue.len() > 0 {
        let state = progress.queue[0];
        let idx = state.node_index;
        p.lemma_step_valid(progress);
        let entered = p.enter(progress);
        assert(q.enter(progress) == entered);
        let list = traversal::required(p.graph, state);
        lemma_same_charges(p, q, entered, list, state);
        let loaded = p.charge_all(entered, list, state);
        assert(p.leaky(ReasoningMode::NeedContractEvidence, idx) == q.leaky(
            ReasoningMode::NeedContractEvidence,
            idx,
        ));
        assert(p.leaky(ReasoningMode::NeedUsageEvidence, idx) == q.leaky(
            ReasoningMode::NeedUsageEvidence,
            idx,
        ));
        assert(p.moves(state) == q.moves(state));
        lemma_same_moves(p, q, loaded, state, p.moves(state));
        assert(p.step(progress) == q.step(progress));
        lemma_same_run(p, q, p.step(progress));
    }
}

/// The fragments that a traversal charged have the sizes that a graph gives them.
proof fn lemma_sizes<P: BoundaryPolicy, Q: BoundaryPolicy>(
    p: Walk<P>,
    q: Walk<Q>,
    few: Seq<NodeIndex>,
    many: Seq<NodeIndex>,
)
    requires
        p.graph == q.graph,
        p.graph.wf(),
        sizes_consistent(p.graph),
        forall|i: int| 0 <= i < few.len() ==> p.graph.has(#[trigger] few[i]),
        forall|i: int| 0 <= i < many.len() ==> q.graph.has(#[trigger] many[i]),
    ensures
        measure::sizes_agree(p.outcome(few).fragments, q.outcome(many).fragments),
{
    let a = p.outcome(few);
    let b = q.outcome(many);
    p.law_charges_what_is_needed(few);
    q.law_charges_what_is_needed(many);
    p.lemma_outcome_valid(few);
    q.lemma_outcome_valid(many);
    assert forall|i: int, j: int|
        #![trigger a.fragments[i], b.fragments[j]]
        0 <= i < a.fragments.len() && 0 <= j < b.fragments.len() && a.fragments[i].id
            == b.fragments[j].id implies a.fragments[i].size == b.fragments[j].size by {
        assert(p.needed(a, a.fragments[i]));
        assert(q.needed(b, b.fragments[j]));
        let s = choose|s: ReasoningState| #[trigger]
            a.visited.contains(s) && p.needs(s, a.fragments[i]);
        let t = choose|t: ReasoningState| #[trigger]
            b.visited.contains(t) && q.needs(t, b.fragments[j]);
        assert(p.is_state(s));
        assert(q.is_state(t));
        let x = traversal::required(p.graph, s);
        let y = traversal::required(p.graph, t);
        let k = choose|k: int| 0 <= k < x.len() && x[k] == a.fragments[i];
        let l = choose|l: int| 0 <= l < y.len() && y[l] == b.fragments[j];
        assert(x[k].size == y[l].size);
    }
}

/// Fragments that are all in another list, with sizes that agree, are covered by it.
proof fn lemma_covered(a: Seq<Charge>, b: Seq<Charge>)
    requires
        measure::sizes_agree(a, b),
        forall|id: Seq<char>| #[trigger] traversal::charged(a, id) ==> traversal::charged(b, id),
    ensures
        measure::covered(a, b),
{
    assert forall|i: int| 0 <= i < a.len() implies measure::covers(b, #[trigger] a[i]) by {
        assert(traversal::charged(a, a[i].id));
        assert(traversal::charged(b, a[i].id));
        let j = choose|j: int| 0 <= j < b.len() && (#[trigger] b[j]).id == a[i].id;
        assert(b[j].id == a[i].id && a[i].size <= b[j].size);
    }
}

/// In a graph that gives each fragment one size, both directions of a footprint agree
/// on sizes.
pub proof fn law_directions_agree_on_sizes<P: BoundaryPolicy>(
    p: CfSolver<P>,
    starts: Seq<NodeIndex>,
    max_tokens: Option<u32>,
)
    requires
        p.graph.wf(),
        p.has_all(starts),
        sizes_consistent(*p.graph),
    ensures
        measure::sizes_agree(
            p.footprint(starts, max_tokens).out.fragments,
            p.footprint(starts, max_tokens).incoming.fragments,
        ),
{
    let out = p.footprint(starts, max_tokens).out;
    lemma_sizes(
        p.out_walk(max_tokens),
        p.in_walk(max_tokens, out.fragments),
        starts,
        starts,
    );
}

/// In a graph that gives each fragment one size, a footprint is no larger if the
/// policy stops wherever that of another does, and there are no other start nodes.
pub proof fn law_boundaries_cost_no_more<P: BoundaryPolicy, Q: BoundaryPolicy>(
    p: CfSolver<P>,
    q: CfSolver<Q>,
    few: Seq<NodeIndex>,
    many: Seq<NodeIndex>,
)
    requires
        p.graph == q.graph,
        p.graph.wf(),
        sizes_consistent(*p.graph),
        stops_wherever(*p.boundary_policy, *q.boundary_policy),
        forall|i: int| 0 <= i < few.len() ==> many.contains(#[trigger] few[i]),
        q.has_all(many),
    ensures
        p.footprint(few, None).cf_out() <= q.footprint(many, None).cf_out(),
        p.footprint(few, None).cf_in() <= q.footprint(many, None).cf_in(),
        p.footprint(few, None).cf_total() <= q.footprint(many, None).cf_total(),
{
    let a = p.footprint(few, None);
    let b = q.footprint(many, None);
    let p_out = p.out_walk(None);
    let q_out = q.out_walk(None);
    let p_in = p.in_walk(None, a.out.fragments);
    let q_in = q.in_walk(None, b.out.fragments);
    assert forall|i: int| 0 <= i < few.len() implies p.graph.has(#[trigger] few[i]) by {
        assert(many.contains(few[i]));
        let j = choose|j: int| 0 <= j < many.len() && many[j] == few[i];
        assert(q.graph.has(many[j]));
    }
    law_boundaries_only_take_away(p_out, q_out, few, many);
    law_boundaries_only_take_away(p_in, q_in, few, many);
    p_out.law_charges_what_is_needed(few);
    p_in.law_charges_what_is_needed(few);
    lemma_sizes(p_out, q_out, few, many);
    lemma_sizes(p_in, q_in, few, many);
    lemma_covered(a.out.fragments, b.out.fragments);
    lemma_covered(a.incoming.fragments, b.incoming.fragments);
    measure::lemma_covered_total(a.out.fragments, b.out.fragments);
    measure::lemma_covered_total(a.incoming.fragments, b.incoming.fragments);
    lemma_sizes(q_out, q_in, many, many);
    measure::lemma_unions(
        a.out.fragments,
        a.incoming.fragments,
        b.out.fragments,
        b.incoming.fragments,
    );
}

/// Where the program alone decides, all policies stop alike: at external targets, at
/// variables that are written or that cannot change, and at contracts of parents, but
/// never at evidence of use.
pub proof fn law_facts_are_not_up_to_policies<P: BoundaryPolicy, Q: BoundaryPolicy>(
    p: Walk<P>,
    q: Walk<Q>,
    a: ReasoningState,
    target: NodeIndex,
    relation: ReasoningRelation,
)
    requires
        p.graph == q.graph,
        p.graph.at(target).node_core().is_external || !(relation == ReasoningRelation::Call
            || relation == ReasoningRelation::Annotates || relation
            == ReasoningRelation::DynamicDispatch || relation
            == ReasoningRelation::ValueProvenance || (relation == ReasoningRelation::Read
            && p.graph.at(target) is Function)),
    ensures
        p.stops(a, target, relation) == q.stops(a, target, relation),
        p.stops(a, target, relation) <==> {
            ||| p.graph.at(target).node_core().is_external
            ||| relation == ReasoningRelation::Write
            ||| relation == ReasoningRelation::ParentContract
            ||| relation == ReasoningRelation::Read && !traversal::is_mutable_variable(
                p.graph.at(target),
            )
        },
{
}

impl<P: BoundaryPolicy> Walk<P> {
    /// Surfaces, and implementations that are looked into as evidence, lead nowhere.
    pub proof fn law_evidence_is_one_hop(self, a: ReasoningState, b: ReasoningState)
        requires
            self.leads_to(a, b),
        ensures
            a.reasoning_mode != ReasoningMode::NeedSurface,
            a.reasoning_mode != ReasoningMode::NeedImplementation,
            a.direction == Direction::In ==> a.reasoning_mode != ReasoningMode::NeedBehavior,
    {
    }

    /// The value of a variable leads only to those that write it, and only if it may
    /// change: to their behavior, and to how they are used.
    pub proof fn law_provenance_leads_to_writers(self, a: ReasoningState, b: ReasoningState)
        requires
            self.graph.wf(),
            self.leads_to(a, b),
            a.direction == Direction::Out,
            a.reasoning_mode == ReasoningMode::NeedValueProvenance,
        ensures
            traversal::is_mutable_variable(self.graph.at(a.node_index)),
            self.graph.has_link(b.node_index, a.node_index, EdgeKind::Write),
            b.direction == Direction::Out,
            b.reasoning_mode == ReasoningMode::NeedBehavior || b.reasoning_mode
                == ReasoningMode::NeedUsageEvidence || b.reasoning_mode
                == ReasoningMode::NeedSurface,
    {
        let k = choose|k: int|
            0 <= k < self.moves(a).len() && self.successor(a, #[trigger] self.moves(a)[k]) == Some(
                b,
            );
        let n = self.graph.incoming(a.node_index, Some(EdgeKind::Write)).len();
        let at = if k < n {
            k
        } else {
            k - n
        };
        self.graph.lemma_incoming(a.node_index, Some(EdgeKind::Write), at);
    }

    /// Whoever writes a variable that may change, and whose value is asked for, is
    /// entered for its behavior and for how it is used, unless the policy stops there.
    pub proof fn law_writers_are_entered_twice(self, a: ReasoningState, writer: NodeIndex)
        requires
            self.graph.wf(),
            self.graph.has(a.node_index),
            a.direction == Direction::Out,
            a.reasoning_mode == ReasoningMode::NeedValueProvenance,
            traversal::is_mutable_variable(self.graph.at(a.node_index)),
            !self.graph.at(a.node_index).node_core().is_external,
            self.graph.has_link(writer, a.node_index, EdgeKind::Write),
        ensures
            self.stops(a, writer, ReasoningRelation::ValueProvenance) ==> self.leads_to(
                a,
                ReasoningState {
                    node_index: writer,
                    direction: Direction::Out,
                    reasoning_mode: ReasoningMode::NeedSurface,
                },
            ),
            !self.stops(a, writer, ReasoningRelation::ValueProvenance) ==> self.leads_to(
                a,
                ReasoningState {
                    node_index: writer,
                    direction: Direction::Out,
                    reasoning_mode: ReasoningMode::NeedBehavior,
                },
            ) && self.leads_to(
                a,
                ReasoningState {
                    node_index: writer,
                    direction: Direction::Out,
                    reasoning_mode: ReasoningMode::NeedUsageEvidence,
                },
            ),
    {
        self.graph.law_edges_are_listed_at_both_ends(writer, a.node_index, EdgeKind::Write);
        let writers = self.graph.incoming(a.node_index, Some(EdgeKind::Write));
        let k = choose|k: int| 0 <= k < writers.len() && writers[k] == (writer, EdgeKind::Write);
        let first = self.moves(a)[k];
        let second = self.moves(a)[writers.len() + k];
        assert(first == Move::Follow {
            target: writer,
            relation: ReasoningRelation::ValueProvenance,
            enter_mode: ReasoningMode::NeedBehavior,
        });
        assert(second == Move::Besides {
            target: writer,
            relation: ReasoningRelation::ValueProvenance,
            enter_mode: ReasoningMode::NeedUsageEvidence,
        });
        assert(self.successor(a, self.moves(a)[k]) is Some);
        assert(self.successor(a, self.moves(a)[writers.len() + k]) is Some || self.stops(
            a,
            writer,
            ReasoningRelation::ValueProvenance,
        ));
    }

    /// Behavior leads only along the edges of a unit: to the behavior of what it calls,
    /// of its decorators and of its implementations, to where the values come from
    /// that it reads, and to the surfaces of what it writes.
    pub proof fn law_behavior_follows_edges(self, a: ReasoningState, b: ReasoningState)
        requires
            self.graph.wf(),
            self.leads_to(a, b),
            a.direction == Direction::Out,
            a.reasoning_mode == ReasoningMode::NeedBehavior,
        ensures
            exists|kind: EdgeKind| #[trigger]
                self.graph.has_link(a.node_index, b.node_index, kind) && (b.reasoning_mode
                    == ReasoningMode::NeedSurface || match kind {
                    EdgeKind::Call
                    | EdgeKind::Annotates
                    | EdgeKind::OverriddenBy => b.reasoning_mode == ReasoningMode::NeedBehavior,
                    EdgeKind::Read => b.reasoning_mode == ReasoningMode::NeedValueProvenance,
                    EdgeKind::Write => false,
                }),
    {
        let k = choose|k: int|
            0 <= k < self.moves(a).len() && self.successor(a, #[trigger] self.moves(a)[k]) == Some(
                b,
            );
        self.graph.lemma_outgoing(a.node_index, k);
        let edge = self.graph.outgoing(a.node_index)[k];
        assert(self.graph.has_link(a.node_index, b.node_index, edge.1));
    }

    /// Every edge of a unit whose behavior is asked for is followed: the surface of the
    /// target is needed in any case, and more of it unless a boundary stops there.
    pub proof fn law_behavior_follows_every_edge(
        self,
        a: ReasoningState,
        target: NodeIndex,
        kind: EdgeKind,
    )
        requires
            self.graph.wf(),
            a.direction == Direction::Out,
            a.reasoning_mode == ReasoningMode::NeedBehavior,
            !self.graph.at(a.node_index).node_core().is_external,
            self.graph.has_link(a.node_index, target, kind),
        ensures
            ({
                let step = traversal::behavior_move((target, kind));
                self.leads_to(
                    a,
                    ReasoningState {
                        node_index: target,
                        direction: Direction::Out,
                        reasoning_mode: if self.stops(a, target, step->Follow_relation) {
                            ReasoningMode::NeedSurface
                        } else {
                            step->Follow_enter_mode
                        },
                    },
                )
            }),
    {
        self.graph.law_edges_are_listed_at_both_ends(a.node_index, target, kind);
        let edges = self.graph.outgoing(a.node_index);
        let k = choose|k: int| 0 <= k < edges.len() && edges[k] == (target, kind);
        assert(self.moves(a)[k] == traversal::behavior_move((target, kind)));
        assert(self.successor(a, self.moves(a)[k]) is Some);
    }

    /// A boundary is recorded only where something was cut off that would have been entered
    /// else: at a read of a variable that cannot change, or where the policy says so. It
    /// is never recorded at an external target, a variable that is written, or the
    /// contract of a parent.
    pub proof fn law_stops_cut_something_off(self, starts: Seq<NodeIndex>, x: BoundaryStop) -> (r: (
        ReasoningState,
        NodeIndex,
    ))
        requires
            self.graph.wf(),
            forall|k: int| 0 <= k < starts.len() ==> self.graph.has(#[trigger] starts[k]),
            self.outcome(starts).stops.contains(x),
        ensures
            x.relation != ReasoningRelation::Write,
            x.relation != ReasoningRelation::ParentContract,
            self.outcome(starts).visited.contains(r.0),
            x.source == self.graph.at(r.0.node_index).node_core().id,
            x.target == self.graph.at(r.1).node_core().id,
            !self.graph.at(r.1).node_core().is_external,
            if x.relation == ReasoningRelation::Read && self.graph.at(r.1) is Variable {
                !traversal::is_mutable_variable(self.graph.at(r.1))
            } else {
                self.verdict(r.0, r.1, x.relation) == BoundaryDecision::StopAtSurface
            },
    {
        let end = self.outcome(starts);
        self.law_stops_are_recorded(starts);
        let s = choose|s: ReasoningState| #[trigger]
            end.visited.contains(s) && self.stops_at(s, x);
        let k = choose|k: int|
            0 <= k < self.moves(s).len() && self.stop(s, #[trigger] self.moves(s)[k]) == Some(x);
        (s, self.moves(s)[k]->Follow_target)
    }

    /// The use of a unit with a contract that can be relied on leads only to the
    /// contracts it inherits.
    pub proof fn law_reliable_contract_leads_to_parents(self, a: ReasoningState, b: ReasoningState)
        requires
            self.graph.wf(),
            self.leads_to(a, b),
            traversal::is_usage(a.reasoning_mode),
            !self.leaky(traversal::gate_mode(a.reasoning_mode), a.node_index),
        ensures
            self.graph.has_link(b.node_index, a.node_index, EdgeKind::OverriddenBy),
            b.reasoning_mode == ReasoningMode::NeedSurface,
    {
        let k = choose|k: int|
            0 <= k < self.moves(a).len() && self.successor(a, #[trigger] self.moves(a)[k]) == Some(
                b,
            );
        let parents = self.graph.incoming(a.node_index, Some(EdgeKind::OverriddenBy));
        lemma_parent_moves_len(parents, a.direction);
        lemma_parent_move(parents, a.direction, k);
        self.graph.lemma_incoming(a.node_index, Some(EdgeKind::OverriddenBy), k);
    }

    /// Whether a node reads a variable that may change and that another writes.
    pub open spec fn observes(self, reader: NodeIndex, writer: NodeIndex) -> bool {
        exists|variable: NodeIndex|
            {
                &&& #[trigger] self.graph.has_link(writer, variable, EdgeKind::Write)
                &&& traversal::is_mutable_variable(self.graph.at(variable))
                &&& self.graph.has_link(reader, variable, EdgeKind::Read)
            }
    }

    /// What the use of a unit leads to, also of one whose contract cannot be relied on:
    /// to callers, to the contracts it inherits and their uses, to the implementations
    /// of its implementors, to variables it writes that may change, and to those that
    /// read them. What else a caller calls is not looked into.
    pub proof fn law_usage_leads_to_evidence(self, a: ReasoningState, b: ReasoningState)
        requires
            self.graph.wf(),
            self.leads_to(a, b),
            traversal::is_usage(a.reasoning_mode),
        ensures
            b.direction == a.direction,
            ({
                let surface = b.reasoning_mode == ReasoningMode::NeedSurface;
                ||| self.graph.has_link(b.node_index, a.node_index, EdgeKind::Call) && (surface
                    || b.reasoning_mode == ReasoningMode::NeedUsageEvidence)
                ||| self.graph.has_link(b.node_index, a.node_index, EdgeKind::OverriddenBy) && (surface
                    || b.reasoning_mode == ReasoningMode::NeedParentUsage)
                ||| self.graph.has_link(a.node_index, b.node_index, EdgeKind::OverriddenBy) && (surface
                    || b.reasoning_mode == ReasoningMode::NeedImplementation)
                ||| self.graph.has_link(a.node_index, b.node_index, EdgeKind::Write) && surface
                    && traversal::is_mutable_variable(self.graph.at(b.node_index))
                ||| self.observes(b.node_index, a.node_index) && (surface || b.reasoning_mode
                    == ReasoningMode::NeedImplementation)
            }),
    {
        let graph = self.graph;
        let idx = a.node_index;
        let k = choose|k: int|
            0 <= k < self.moves(a).len() && self.successor(a, #[trigger] self.moves(a)[k]) == Some(
                b,
            );
        let parents = graph.incoming(idx, Some(EdgeKind::OverriddenBy));
        let edges = graph.outgoing(idx);
        assert forall|i: int| 0 <= i < parents.len() implies self.graph.has_link(
            (#[trigger] parents[i]).0,
            idx,
            EdgeKind::OverriddenBy,
        ) by {
            graph.lemma_incoming(idx, Some(EdgeKind::OverriddenBy), i);
        }
        assert forall|i: int| 0 <= i < edges.len() implies self.graph.has_link(
            idx,
            (#[trigger] edges[i]).0,
            edges[i].1,
        ) by {
            graph.lemma_outgoing(idx, i);
        }
        if self.leaky(traversal::gate_mode(a.reasoning_mode), idx) {
            let x = traversal::caller_moves(graph, idx);
            let y = traversal::parent_moves(parents, true, a.direction);
            let z = traversal::child_moves(edges);
            let w = traversal::reader_moves(graph, edges);
            if k < x.len() {
                assert(self.moves(a)[k] == x[k]);
                graph.lemma_incoming(idx, Some(EdgeKind::Call), k);
            } else if k < x.len() + y.len() {
                assert(self.moves(a)[k] == y[k - x.len()]);
                lemma_parent_move_target(parents, true, a.direction, k - x.len());
            } else if k < x.len() + y.len() + z.len() {
                assert(self.moves(a)[k] == z[k - x.len() - y.len()]);
                lemma_child_move_target(edges, k - x.len() - y.len());
            } else {
                assert(self.moves(a)[k] == w[k - x.len() - y.len() - z.len()]);
                self.lemma_reader_move_target(idx, edges, k - x.len() - y.len() - z.len());
            }
        } else {
            lemma_parent_move_target(parents, false, a.direction, k);
        }
    }

    /// Every kind of evidence of how a unit is used that cannot be relied on is looked
    /// into, in every mode that asks for it: the callers, the uses of the units whose
    /// contracts it inherits, its implementors, and the readers of what it writes.
    pub proof fn law_all_evidence_is_looked_into(
        self,
        a: ReasoningState,
        other: NodeIndex,
        variable: NodeIndex,
    ) -> (b: ReasoningState)
        requires
            self.graph.wf(),
            self.graph.has(a.node_index),
            traversal::is_usage(a.reasoning_mode),
            self.leaky(traversal::gate_mode(a.reasoning_mode), a.node_index),
            !self.graph.at(a.node_index).node_core().is_external,
            ({
                ||| self.graph.has_link(other, a.node_index, EdgeKind::Call)
                ||| self.graph.has_link(other, a.node_index, EdgeKind::OverriddenBy)
                ||| self.graph.has_link(a.node_index, other, EdgeKind::OverriddenBy)
                ||| self.graph.has_link(a.node_index, variable, EdgeKind::Write)
                    && traversal::is_mutable_variable(self.graph.at(variable))
                    && self.graph.has_link(other, variable, EdgeKind::Read)
            }),
        ensures
            self.leads_to(a, b),
            b.node_index == other,
            b.direction == a.direction,
            self.graph.has_link(other, a.node_index, EdgeKind::Call) ==> b.reasoning_mode
                == if self.stops(a, other, ReasoningRelation::UsageEvidence) {
                ReasoningMode::NeedSurface
            } else {
                ReasoningMode::NeedUsageEvidence
            },
    {
        let graph = self.graph;
        let idx = a.node_index;
        let parents = graph.incoming(idx, Some(EdgeKind::OverriddenBy));
        let callers = graph.incoming(idx, Some(EdgeKind::Call));
        let edges = graph.outgoing(idx);
        let x = traversal::caller_moves(graph, idx);
        let y = traversal::parent_moves(parents, true, a.direction);
        let z = traversal::child_moves(edges);
        let w = traversal::reader_moves(graph, edges);
        let moves = self.moves(a);
        let k: int = if graph.has_link(other, idx, EdgeKind::Call) {
            graph.law_edges_are_listed_at_both_ends(other, idx, EdgeKind::Call);
            let i = choose|i: int| 0 <= i < callers.len() && callers[i] == (other, EdgeKind::Call);
            assert(moves[i] == x[i]);
            i
        } else if graph.has_link(other, idx, EdgeKind::OverriddenBy) {
            graph.law_edges_are_listed_at_both_ends(other, idx, EdgeKind::OverriddenBy);
            let i = choose|i: int|
                0 <= i < parents.len() && parents[i] == (other, EdgeKind::OverriddenBy);
            lemma_parent_move(parents, a.direction, i);
            assert(moves[x.len() + 2 * i] == y[2 * i]);
            x.len() + 2 * i
        } else if graph.has_link(idx, other, EdgeKind::OverriddenBy) {
            graph.law_edges_are_listed_at_both_ends(idx, other, EdgeKind::OverriddenBy);
            let i = lemma_child_move_listed(edges, other);
            assert(moves[x.len() + y.len() + i] == z[i]);
            x.len() + y.len() + i
        } else {
            graph.law_edges_are_listed_at_both_ends(idx, variable, EdgeKind::Write);
            graph.law_edges_are_listed_at_both_ends(other, variable, EdgeKind::Read);
            let i = lemma_reader_move_listed(graph, edges, variable, other);
            assert(moves[x.len() + y.len() + z.len() + i] == w[i]);
            x.len() + y.len() + z.len() + i
        };
        let step = moves[k];
        assert(step is Follow && step->Follow_target == other);
        let b = self.successor(a, self.moves(a)[k])->0;
        b
    }

    /// What the moves to readers go to.
    proof fn lemma_reader_move_target(
        self,
        idx: NodeIndex,
        edges: Seq<(NodeIndex, EdgeKind)>,
        k: int,
    )
        requires
            self.graph.wf(),
            forall|i: int|
                0 <= i < edges.len() ==> self.graph.has_link(idx, (#[trigger] edges[i]).0, edges[i].1),
            0 <= k < traversal::reader_moves(self.graph, edges).len(),
        ensures
            match traversal::reader_moves(self.graph, edges)[k] {
                Move::Follow { target, relation, enter_mode } => {
                    ||| self.graph.has_link(idx, target, EdgeKind::Write) && enter_mode
                        == ReasoningMode::NeedSurface && traversal::is_mutable_variable(
                        self.graph.at(target),
                    )
                    ||| self.observes(target, idx) && enter_mode
                        == ReasoningMode::NeedImplementation
                },
                Move::Besides { .. } | Move::Continue(_) => false,
            },
        decreases edges.len(),
    {
        let rest = edges.drop_last();
        let older = traversal::reader_moves(self.graph, rest);
        assert(edges[edges.len() - 1] == edges.last());
        assert forall|i: int| 0 <= i < rest.len() implies self.graph.has_link(
            idx,
            (#[trigger] rest[i]).0,
            rest[i].1,
        ) by {
            assert(rest[i] == edges[i]);
        }
        if k < older.len() {
            self.lemma_reader_move_target(idx, rest, k);
            assert(traversal::reader_moves(self.graph, edges)[k] == older[k]);
        } else if k > older.len() {
            let variable = edges.last().0;
            let i = k - older.len() - 1;
            self.graph.lemma_incoming(variable, Some(EdgeKind::Read), i);
            let readers = self.graph.incoming(variable, Some(EdgeKind::Read));
            assert(self.graph.has_link(readers[i].0, variable, EdgeKind::Read));
            assert(self.graph.has_link(idx, variable, EdgeKind::Write));
        }
    }

    /// If the contract of a unit can be relied on, the traversal inwards needs only
    /// the unit and the surfaces of the units whose contracts it inherits.
    pub proof fn law_reliable_unit_has_no_usage(self, unit: NodeIndex, s: ReasoningState)
        requires
            self.graph.wf(),
            self.direction == Direction::In,
            !self.leaky(ReasoningMode::NeedContractEvidence, unit),
            self.derivable(seq![unit], s),
        ensures
            s == (ReasoningState {
                node_index: unit,
                direction: Direction::In,
                reasoning_mode: ReasoningMode::NeedContractEvidence,
            }) || (s.reasoning_mode == ReasoningMode::NeedSurface && self.graph.has_link(
                s.node_index,
                unit,
                EdgeKind::OverriddenBy,
            )),
    {
        let chain = choose|chain: Seq<ReasoningState>| #[trigger]
            self.is_chain(seq![unit], chain) && chain.last() == s;
        let list = traversal::initial_states(seq![unit], self.direction);
        let i = choose|i: int| 0 <= i < list.len() && list[i] == chain[0];
        assert(i == 0);
        if chain.len() > 1 {
            assert(self.leads_to(chain[0], chain[0int + 1]));
            self.law_reliable_contract_leads_to_parents(chain[0], chain[1]);
            if chain.len() > 2 {
                assert(self.leads_to(chain[1], chain[1int + 1]));
                self.law_evidence_is_one_hop(chain[1], chain[2]);
            }
        }
    }

    /// The surface of every node that is reached is charged, unless a limit was met.
    pub proof fn law_reached_surfaces_are_charged(self, starts: Seq<NodeIndex>, idx: NodeIndex)
        requires
            self.graph.wf(),
            forall|k: int| 0 <= k < starts.len() ==> self.graph.has(#[trigger] starts[k]),
            !self.outcome(starts).truncated,
            self.outcome(starts).nodes.contains(idx),
        ensures
            traversal::charged(
                self.outcome(starts).fragments,
                self.graph.at(idx).node_core().surface_fragment.id@,
            ),
    {
        let end = self.outcome(starts);
        self.law_charges_what_is_needed(starts);
        self.law_nodes_are_visited(starts);
        let s = choose|s: ReasoningState| #[trigger] end.visited.contains(s) && s.node_index == idx;
        let c = traversal::charge_of(self.graph.at(idx).node_core().surface_fragment);
        assert(traversal::required(self.graph, s)[0] == c);
        assert(self.needs(s, c));
    }

    /// The surfaces of all types that a reached node brings in are charged, unless a
    /// limit was met.
    pub proof fn law_reached_types_are_charged(
        self,
        starts: Seq<NodeIndex>,
        idx: NodeIndex,
        type_id: Seq<char>,
    )
        requires
            self.graph.wf(),
            forall|k: int| 0 <= k < starts.len() ==> self.graph.has(#[trigger] starts[k]),
            !self.outcome(starts).truncated,
            self.outcome(starts).nodes.contains(idx),
            type_closure::named_types(
                traversal::mentioned_types(self.graph.at(idx)),
                self.graph.types(),
            ).contains(type_id),
            self.graph.types().contains_key(type_id),
        ensures
            traversal::charged(
                self.outcome(starts).fragments,
                self.graph.types()[type_id].surface_fragment.id@,
            ),
    {
        let end = self.outcome(starts);
        self.law_charges_what_is_needed(starts);
        self.law_nodes_are_visited(starts);
        let s = choose|s: ReasoningState| #[trigger] end.visited.contains(s) && s.node_index == idx;
        let names = type_closure::named_types(
            traversal::mentioned_types(self.graph.at(idx)),
            self.graph.types(),
        );
        let k = lemma_type_charge_listed(names, self.graph.types(), type_id);
        let c = traversal::charge_of(self.graph.types()[type_id].surface_fragment);
        assert(traversal::required(self.graph, s)[k + 1] == c);
        assert(self.needs(s, c));
    }

    /// The contract that a start unit inherits belongs to the traversal inwards,
    /// whatever the policy says of the contract of the unit, unless a limit was met.
    pub proof fn law_inherited_contracts_are_charged(
        self,
        starts: Seq<NodeIndex>,
        i: int,
        parent: NodeIndex,
    )
        requires
            self.graph.wf(),
            self.direction == Direction::In,
            forall|k: int| 0 <= k < starts.len() ==> self.graph.has(#[trigger] starts[k]),
            0 <= i < starts.len(),
            !self.graph.at(starts[i]).node_core().is_external,
            self.graph.incoming(starts[i], Some(EdgeKind::OverriddenBy)).contains(
                (parent, EdgeKind::OverriddenBy),
            ),
            !self.outcome(starts).truncated,
        ensures
            traversal::charged(
                self.outcome(starts).fragments,
                self.graph.at(parent).node_core().surface_fragment.id@,
            ),
    {
        let idx = starts[i];
        let list = traversal::initial_states(starts, self.direction);
        let s = list[i];
        assert(list.contains(s));
        let parents = self.graph.incoming(idx, Some(EdgeKind::OverriddenBy));
        let k = choose|k: int|
            0 <= k < parents.len() && parents[k] == (parent, EdgeKind::OverriddenBy);
        lemma_parent_moves_len(parents, s.direction);
        lemma_parent_move(parents, s.direction, k);
        let callers = traversal::caller_moves(self.graph, idx);
        let at = if self.leaky(ReasoningMode::NeedContractEvidence, idx) {
            callers.len() + 2 * k
        } else {
            k
        };
        let step = self.moves(s)[at];
        assert(step is Follow && step->Follow_target == parent && step->Follow_relation
            == ReasoningRelation::ParentContract);
        let t = self.successor(s, step)->0;
        assert(self.leads_to(s, t));
        let chain = seq![s, t];
        assert(chain[1] == t);
        assert(self.is_chain(starts, chain) && chain.last() == t);
        self.law_visits_what_is_derivable(starts);
        assert(self.derivable(starts, t));
        self.law_nodes_are_visited(starts);
        assert(self.outcome(starts).visited.contains(t) && t.node_index == parent);
        self.law_reached_surfaces_are_charged(starts, parent);
    }

    /// The fragments of a start unit belong to the traversal, unless a limit was met.
    pub proof fn law_start_unit_is_charged(self, starts: Seq<NodeIndex>, i: int, c: Charge)
        requires
            self.graph.wf(),
            forall|k: int| 0 <= k < starts.len() ==> self.graph.has(#[trigger] starts[k]),
            0 <= i < starts.len(),
            !self.outcome(starts).truncated,
            ({
                let node = self.graph.at(starts[i]).node_core();
                ||| c == traversal::charge_of(node.surface_fragment)
                ||| node.implementation_fragment is Some && c == traversal::charge_of(
                    node.implementation_fragment->0,
                )
            }),
        ensures
            traversal::charged(self.outcome(starts).fragments, c.id),
            self.outcome(starts).nodes.contains(starts[i]),
    {
        let list = traversal::initial_states(starts, self.direction);
        let s = list[i];
        let end = self.outcome(starts);
        let chain = seq![s];
        assert(list.contains(s));
        assert(self.is_chain(starts, chain) && chain.last() == s);
        self.law_visits_what_is_derivable(starts);
        self.law_charges_what_is_needed(starts);
        self.law_nodes_are_visited(starts);
        assert(self.derivable(starts, s));
        let needed = traversal::required(self.graph, s);
        let node = self.graph.at(starts[i]).node_core();
        if c == traversal::charge_of(node.surface_fragment) {
            assert(needed[0] == c);
        } else {
            assert(needed[needed.len() - 1] == c);
        }
        assert(self.needs(s, c));
        assert(s.node_index == starts[i]);
    }
}

/// The surface of a registered type is among those of a list that names it.
pub(crate) proof fn lemma_type_charge_listed(
    names: Seq<Seq<char>>,
    types: Map<Seq<char>, TypeInfo>,
    type_id: Seq<char>,
) -> (k: int)
    requires
        names.contains(type_id),
        types.contains_key(type_id),
    ensures
        0 <= k < traversal::type_charges(names, types).len(),
        traversal::type_charges(names, types)[k] == traversal::charge_of(
            types[type_id].surface_fragment,
        ),
    decreases names.len(),
{
    let rest = names.drop_last();
    let older = traversal::type_charges(rest, types);
    if names.last() == type_id {
        older.len() as int
    } else {
        let i = choose|i: int| 0 <= i < names.len() && names[i] == type_id;
        assert(rest[i] == type_id);
        let k = lemma_type_charge_listed(rest, types, type_id);
        assert(traversal::type_charges(names, types)[k] == older[k]);
        k
    }
}

/// The fragments of a unit: its surface, and its implementation if it has one.
pub open spec fn unit_charges(node: Node) -> Seq<Charge> {
    let core_value = node.node_core();
    let surface = seq![traversal::charge_of(core_value.surface_fragment)];
    match core_value.implementation_fragment {
        Some(fragment) => surface.push(traversal::charge_of(fragment)),
        None => surface,
    }
}

/// A start unit with its surface and implementation is part of both directions, so
/// that their overlap is no smaller than the unit. This is without a limit, in a graph
/// that gives each fragment one size.
pub proof fn law_overlap_covers_the_unit<P: BoundaryPolicy>(
    p: CfSolver<P>,
    starts: Seq<NodeIndex>,
    i: int,
)
    requires
        p.graph.wf(),
        p.has_all(starts),
        0 <= i < starts.len(),
        sizes_consistent(*p.graph),
        closure::charged_once(unit_charges(p.graph.at(starts[i]))),
    ensures
        traversal::total(unit_charges(p.graph.at(starts[i]))) <= p.footprint(
            starts,
            None,
        ).cf_overlap(),
{
    let footprint = p.footprint(starts, None);
    let out_walk = p.out_walk(None);
    let in_walk = p.in_walk(None, footprint.out.fragments);
    let unit = unit_charges(p.graph.at(starts[i]));
    let both = traversal::shared(footprint.out.fragments, footprint.incoming.fragments);
    out_walk.law_visits_what_is_derivable(starts);
    in_walk.law_visits_what_is_derivable(starts);
    out_walk.law_charges_what_is_needed(starts);
    out_walk.lemma_outcome_valid(starts);
    measure::lemma_shared(footprint.out.fragments, footprint.incoming.fragments);
    let start = ReasoningState {
        node_index: starts[i],
        direction: Direction::Out,
        reasoning_mode: ReasoningMode::NeedBehavior,
    };
    let mine = traversal::required(out_walk.graph, start);
    assert forall|k: int| 0 <= k < unit.len() implies measure::covers(both, #[trigger] unit[k]) by {
        let c = unit[k];
        out_walk.law_start_unit_is_charged(starts, i, c);
        in_walk.law_start_unit_is_charged(starts, i, c);
        let j = choose|j: int|
            0 <= j < footprint.out.fragments.len() && (#[trigger] footprint.out.fragments[j]).id
                == c.id;
        let d = footprint.out.fragments[j];
        assert(out_walk.needed(footprint.out, d));
        let s = choose|s: ReasoningState| #[trigger]
            footprint.out.visited.contains(s) && out_walk.needs(s, d);
        assert(out_walk.is_state(s));
        let theirs = traversal::required(out_walk.graph, s);
        let l = choose|l: int| 0 <= l < theirs.len() && theirs[l] == d;
        let m = if k == 0 {
            0
        } else {
            mine.len() - 1
        };
        assert(mine[m] == c);
        assert(mine[m].size == theirs[l].size);
        assert(both.contains(d));
        let x = choose|x: int| 0 <= x < both.len() && both[x] == d;
        assert(both[x].id == c.id && c.size <= both[x].size);
    }
    measure::lemma_covered_total(unit, both);
}

/// What the moves to parents go to.
proof fn lemma_parent_move_target(
    parents: Seq<(NodeIndex, EdgeKind)>,
    with_usage: bool,
    direction: Direction,
    k: int,
)
    requires
        0 <= k < traversal::parent_moves(parents, with_usage, direction).len(),
    ensures
        ({
            let step = traversal::parent_moves(parents, with_usage, direction)[k];
            exists|i: int|
                0 <= i < parents.len() && match step {
                    Move::Follow { target, relation, enter_mode } => target == (
                    #[trigger] parents[i]).0 && enter_mode == ReasoningMode::NeedSurface,
                    Move::Continue(next) => next.node_index == parents[i].0 && next.reasoning_mode
                        == ReasoningMode::NeedParentUsage && next.direction == direction,
                    Move::Besides { .. } => false,
                }
        }),
    decreases parents.len(),
{
    let rest = parents.drop_last();
    let older = traversal::parent_moves(rest, with_usage, direction);
    if k < older.len() {
        lemma_parent_move_target(rest, with_usage, direction, k);
        assert(traversal::parent_moves(parents, with_usage, direction)[k] == older[k]);
        let step = older[k];
        let i = choose|i: int|
            0 <= i < rest.len() && match step {
                Move::Follow { target, relation, enter_mode } => target == (#[trigger] rest[i]).0
                    && enter_mode == ReasoningMode::NeedSurface,
                Move::Continue(next) => next.node_index == rest[i].0 && next.reasoning_mode
                    == ReasoningMode::NeedParentUsage && next.direction == direction,
                Move::Besides { .. } => false,
            };
        assert(parents[i] == rest[i]);
    } else {
        assert(parents[parents.len() - 1] == parents.last());
    }
}

/// What the moves to implementors go to.
proof fn lemma_child_move_target(edges: Seq<(NodeIndex, EdgeKind)>, k: int)
    requires
        0 <= k < traversal::child_moves(edges).len(),
    ensures
        match traversal::child_moves(edges)[k] {
            Move::Follow { target, relation, enter_mode } => enter_mode
                == ReasoningMode::NeedImplementation && exists|i: int|
                0 <= i < edges.len() && (#[trigger] edges[i]) == (target, EdgeKind::OverriddenBy),
            Move::Besides { .. } | Move::Continue(_) => false,
        },
    decreases edges.len(),
{
    let rest = edges.drop_last();
    let older = traversal::child_moves(rest);
    if k < older.len() {
        lemma_child_move_target(rest, k);
        assert(traversal::child_moves(edges)[k] == older[k]);
        if let Move::Follow { target, relation, enter_mode } = older[k] {
            let i = choose|i: int|
                0 <= i < rest.len() && (#[trigger] rest[i]) == (target, EdgeKind::OverriddenBy);
            assert(edges[i] == rest[i]);
        }
    } else {
        assert(edges[edges.len() - 1] == edges.last());
    }
}

/// A unit that implements another is among the moves to implementors.
pub(crate) proof fn lemma_child_move_listed(edges: Seq<(NodeIndex, EdgeKind)>, child: NodeIndex) -> (k: int)
    requires
        edges.contains((child, EdgeKind::OverriddenBy)),
    ensures
        0 <= k < traversal::child_moves(edges).len(),
        traversal::child_moves(edges)[k] == (Move::Follow {
            target: child,
            relation: ReasoningRelation::ChildImplementationEvidence,
            enter_mode: ReasoningMode::NeedImplementation,
        }),
    decreases edges.len(),
{
    let rest = edges.drop_last();
    let older = traversal::child_moves(rest);
    let i = choose|i: int| 0 <= i < edges.len() && edges[i] == (child, EdgeKind::OverriddenBy);
    if i < rest.len() {
        assert(rest[i] == edges[i]);
        let k = lemma_child_move_listed(rest, child);
        assert(traversal::child_moves(edges)[k] == older[k]);
        k
    } else {
        assert(edges[i] == edges.last());
        older.len() as int
    }
}

/// Whoever reads what a unit writes is among the moves to readers.
pub(crate) proof fn lemma_reader_move_listed(
    graph: ContextGraph,
    edges: Seq<(NodeIndex, EdgeKind)>,
    variable: NodeIndex,
    reader: NodeIndex,
) -> (k: int)
    requires
        edges.contains((variable, EdgeKind::Write)),
        traversal::is_mutable_variable(graph.at(variable)),
        graph.incoming(variable, Some(EdgeKind::Read)).contains((reader, EdgeKind::Read)),
    ensures
        0 <= k < traversal::reader_moves(graph, edges).len(),
        traversal::reader_moves(graph, edges)[k] == (Move::Follow {
            target: reader,
            relation: ReasoningRelation::ObservedBy,
            enter_mode: ReasoningMode::NeedImplementation,
        }),
    decreases edges.len(),
{
    let rest = edges.drop_last();
    let older = traversal::reader_moves(graph, rest);
    let i = choose|i: int| 0 <= i < edges.len() && edges[i] == (variable, EdgeKind::Write);
    if i < rest.len() {
        assert(rest[i] == edges[i]);
        let k = lemma_reader_move_listed(graph, rest, variable, reader);
        assert(traversal::reader_moves(graph, edges)[k] == older[k]);
        k
    } else {
        assert(edges[i] == edges.last());
        let readers = graph.incoming(variable, Some(EdgeKind::Read));
        let j = choose|j: int| 0 <= j < readers.len() && readers[j] == (reader, EdgeKind::Read);
        older.len() + 1 + j
    }
}

/// Whatever the policy says, an external node that is no start node is never needed with
/// its implementation.
pub proof fn law_external_nodes_need_surfaces<P: BoundaryPolicy>(
    walk: Walk<P>,
    starts: Seq<NodeIndex>,
    s: ReasoningState,
)
    requires
        walk.derivable(starts, s),
        walk.graph.at(s.node_index).node_core().is_external,
        !starts.contains(s.node_index),
    ensures
        !traversal::needs_implementation(s.reasoning_mode),
{
    let chain = choose|chain: Seq<ReasoningState>| #[trigger]
        walk.is_chain(starts, chain) && chain.last() == s;
    if chain.len() == 1 {
        let list = traversal::initial_states(starts, walk.direction);
        let i = choose|i: int| 0 <= i < list.len() && list[i] == chain[0];
        assert(starts[i] == s.node_index);
    } else {
        let a = chain[chain.len() - 2];
        assert(walk.leads_to(a, chain[chain.len() - 2 + 1]));
        let k = choose|k: int|
            0 <= k < walk.moves(a).len() && walk.successor(a, #[trigger] walk.moves(a)[k]) == Some(
                s,
            );
        if walk.moves(a)[k] is Continue {
            lemma_continues_to_parents(walk, a, k);
        }
    }
}

/// What goes on whatever the policy says looks at the uses of a parent.
proof fn lemma_continues_to_parents<P: BoundaryPolicy>(walk: Walk<P>, a: ReasoningState, k: int)
    requires
        0 <= k < walk.moves(a).len(),
        walk.moves(a)[k] is Continue,
    ensures
        walk.moves(a)[k]->Continue_0.reasoning_mode == ReasoningMode::NeedParentUsage,
{
    let graph = walk.graph;
    let idx = a.node_index;
    let parents = graph.incoming(idx, Some(EdgeKind::OverriddenBy));
    lemma_no_continue_in_children(graph.outgoing(idx));
    lemma_no_continue_in_readers(graph, graph.outgoing(idx));
    lemma_parent_continues(parents, true, a.direction);
    lemma_parent_continues(parents, false, a.direction);
    if traversal::is_usage(a.reasoning_mode) && walk.leaky(
        traversal::gate_mode(a.reasoning_mode),
        idx,
    ) {
        let x = traversal::caller_moves(graph, idx);
        let y = traversal::parent_moves(parents, true, a.direction);
        let z = traversal::child_moves(graph.outgoing(idx));
        let w = traversal::reader_moves(graph, graph.outgoing(idx));
        if k < x.len() {
            assert(walk.moves(a)[k] == x[k]);
        } else if k < x.len() + y.len() {
            assert(walk.moves(a)[k] == y[k - x.len()]);
        } else if k < x.len() + y.len() + z.len() {
            assert(walk.moves(a)[k] == z[k - x.len() - y.len()]);
        } else {
            assert(walk.moves(a)[k] == w[k - x.len() - y.len() - z.len()]);
        }
    }
}

proof fn lemma_parent_continues(
    parents: Seq<(NodeIndex, EdgeKind)>,
    with_usage: bool,
    direction: Direction,
)
    ensures
        forall|k: int|
            0 <= k < traversal::parent_moves(parents, with_usage, direction).len() && (
            #[trigger] traversal::parent_moves(parents, with_usage, direction)[k]) is Continue
                ==> traversal::parent_moves(parents, with_usage, direction)[k]->Continue_0.reasoning_mode
                == ReasoningMode::NeedParentUsage,
    decreases parents.len(),
{
    if parents.len() > 0 {
        lemma_parent_continues(parents.drop_last(), with_usage, direction);
        let older = traversal::parent_moves(parents.drop_last(), with_usage, direction);
        let all = traversal::parent_moves(parents, with_usage, direction);
        assert forall|k: int|
            0 <= k < all.len() && (#[trigger] all[k]) is Continue implies
            all[k]->Continue_0.reasoning_mode == ReasoningMode::NeedParentUsage by {
            if k < older.len() {
                assert(all[k] == older[k]);
            }
        }
    }
}

proof fn lemma_no_continue_in_children(edges: Seq<(NodeIndex, EdgeKind)>)
    ensures
        forall|k: int|
            0 <= k < traversal::child_moves(edges).len() ==> !((
            #[trigger] traversal::child_moves(edges)[k]) is Continue),
    decreases edges.len(),
{
    if edges.len() > 0 {
        lemma_no_continue_in_children(edges.drop_last());
        let older = traversal::child_moves(edges.drop_last());
        let all = traversal::child_moves(edges);
        assert forall|k: int| 0 <= k < all.len() implies !((#[trigger] all[k]) is Continue) by {
            if k < older.len() {
                assert(all[k] == older[k]);
            }
        }
    }
}

proof fn lemma_no_continue_in_readers(graph: ContextGraph, edges: Seq<(NodeIndex, EdgeKind)>)
    ensures
        forall|k: int|
            0 <= k < traversal::reader_moves(graph, edges).len() ==> !((
            #[trigger] traversal::reader_moves(graph, edges)[k]) is Continue),
    decreases edges.len(),
{
    if edges.len() > 0 {
        lemma_no_continue_in_readers(graph, edges.drop_last());
        let older = traversal::reader_moves(graph, edges.drop_last());
        let all = traversal::reader_moves(graph, edges);
        assert forall|k: int| 0 <= k < all.len() implies !((#[trigger] all[k]) is Continue) by {
            if k < older.len() {
                assert(all[k] == older[k]);
            }
        }
    }
}

} // verus!
