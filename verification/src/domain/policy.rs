//! Boundary policies: where reasoning may stop at a surface.

use crate::domain::edge::EdgeKind;
use crate::domain::graph::{ContextGraph, NodeIndex};
use crate::domain::node::{FunctionNode, Mutability, Node};
use crate::domain::score::Score;
use crate::domain::text;
use crate::domain::type_registry::{TypeInfo, TypeRegistry};
use std::collections::HashSet;
use vstd::prelude::*;
use vstd::string::StringExecFns;

pub use crate::domain::node::SourceSpan;

verus! {

/// Node type for documentation scoring.
#[derive(Debug, Clone, Copy, PartialEq, Eq, Structural)]
pub enum NodeType {
    Function,
    Variable,
}

/// Pruning decision.
#[derive(Debug, Clone, Copy, PartialEq, Eq, Structural)]
pub enum PruningDecision {
    /// Traversal stops; the node is a valid abstraction.
    Boundary,
    /// Traversal goes on through the node.
    Transparent,
}

/// Direction-specific reason for loading an artifact.
#[derive(Debug, Clone, Copy, PartialEq, Eq, Hash, Structural)]
pub enum ReasoningMode {
    NeedSurface,
    NeedBehavior,
    NeedValueProvenance,
    NeedUsageEvidence,
    NeedContractEvidence,
    NeedImplementation,
    NeedParentUsage,
}

/// A reasoning dependency derived from one or more program facts.
#[derive(Debug, Clone, Copy, PartialEq, Eq, Hash, Structural)]
pub enum ReasoningRelation {
    Call,
    Read,
    Write,
    Annotates,
    DynamicDispatch,
    ValueProvenance,
    UsageEvidence,
    ParentContract,
    ChildImplementationEvidence,
    ObservedBy,
}

/// What a policy says of a boundary.
#[derive(Debug, Clone, Copy, PartialEq, Eq, Structural)]
pub enum BoundaryDecision {
    StopAtSurface,
    EnterImplementation,
    Unknown,
}

/// Evaluates boundary reliability independently from traversal semantics. What it
/// decides is up to the implementation, but the same question has one answer. A traversal
/// asks about targets that are called, that annotate or implement a unit, that write what
/// a unit reads, and about functions that are read, and about contracts by themselves;
/// what is decided by the program alone, it does not ask.
pub trait BoundaryPolicy {
    /// The decision at the boundary of a target that a source depends on.
    open spec fn decision(
        &self,
        reasoning_mode: ReasoningMode,
        relation: ReasoningRelation,
        source: Node,
        target: Node,
        type_registry: TypeRegistry,
    ) -> BoundaryDecision {
        arbitrary()
    }

    /// The decision about the contract of a node taken by itself.
    open spec fn contract_decision(
        &self,
        reasoning_mode: ReasoningMode,
        node: Node,
        type_registry: TypeRegistry,
    ) -> BoundaryDecision {
        arbitrary()
    }

    /// The name of the policy and its configuration.
    open spec fn name(&self) -> Seq<char> {
        arbitrary()
    }

    fn evaluate(
        &self,
        reasoning_mode: ReasoningMode,
        relation: ReasoningRelation,
        source: &Node,
        target: &Node,
        type_registry: &TypeRegistry,
    ) -> (r: BoundaryDecision)
        requires
            type_registry.wf(),
        ensures
            r == self.decision(reasoning_mode, relation, *source, *target, *type_registry),
    ;

    fn evaluate_contract(
        &self,
        reasoning_mode: ReasoningMode,
        node: &Node,
        type_registry: &TypeRegistry,
    ) -> (r: BoundaryDecision)
        requires
            type_registry.wf(),
        ensures
            r == self.contract_decision(reasoning_mode, *node, *type_registry),
    ;

    fn id(&self) -> (r: String)
        ensures
            r@ == self.name(),
    ;
}

/// Pruning parameters. A unit counts as documented if its score reaches the threshold.
#[derive(Debug, Clone, Copy, PartialEq, Eq, Structural)]
pub struct PruningParams {
    /// A score of at least this value is sufficient documentation.
    pub doc_threshold: Score,
    /// Whether an internal function is a boundary if it is typed and documented
    /// (academic mode), or only if it is an abstract factory (strict mode).
    pub treat_typed_documented_function_as_boundary: bool,
}

impl Default for PruningParams {
    fn default() -> (r: Self)
        ensures
            r == (PruningParams {
                doc_threshold: Score::spec_half(),
                treat_typed_documented_function_as_boundary: true,
            }),
    {
        PruningParams::academic(Score::half())
    }
}

impl PruningParams {
    /// Academic mode: an internal function is a boundary if typed and documented.
    pub fn academic(doc_threshold: Score) -> (r: Self)
        ensures
            r == (PruningParams {
                doc_threshold,
                treat_typed_documented_function_as_boundary: true,
            }),
    {
        PruningParams { doc_threshold, treat_typed_documented_function_as_boundary: true }
    }

    /// Strict mode: an internal function is transparent unless it is an abstract factory.
    pub fn strict(doc_threshold: Score) -> (r: Self)
        ensures
            r == (PruningParams {
                doc_threshold,
                treat_typed_documented_function_as_boundary: false,
            }),
    {
        PruningParams { doc_threshold, treat_typed_documented_function_as_boundary: false }
    }
}

/// The policy that goes by signatures and documentation scores.
#[derive(Debug, Clone, Copy)]
pub struct SyntacticBoundaryPolicy {
    pub params: PruningParams,
}

/// Whether the score of a function reaches the threshold.
pub open spec fn documented(f: FunctionNode, params: PruningParams) -> bool {
    f.core.doc_score.spec_at_least(params.doc_threshold)
}

/// Whether a function has a complete signature and returns an abstract type.
pub open spec fn abstract_factory(f: FunctionNode, types: Map<Seq<char>, TypeInfo>) -> bool {
    &&& f.signature_complete_with(types)
    &&& exists|i: int|
        0 <= i < f.return_types@.len() && types.contains_key((#[trigger] f.return_types@[i])@)
            && types[f.return_types@[i]@].definition.is_abstract
}

/// Whether the surface of an internal function is a reliable boundary for its users.
pub open spec fn function_boundary(
    f: FunctionNode,
    types: Map<Seq<char>, TypeInfo>,
    params: PruningParams,
) -> bool {
    let complete = f.signature_complete_with(types);
    if f.is_di_wired && complete {
        true
    } else if f.is_interface_method {
        complete && documented(f, params)
    } else {
        abstract_factory(f, types) || (params.treat_typed_documented_function_as_boundary
            && complete && documented(f, params))
    }
}

/// Whether the contract of a node can be relied on without looking at its uses.
pub open spec fn reliable_contract(
    node: Node,
    types: Map<Seq<char>, TypeInfo>,
    params: PruningParams,
) -> bool {
    node.node_core().is_external || match node {
        Node::Variable(v) => v.mutability != Mutability::Mutable,
        Node::Function(f) => f.signature_complete_with(types) && (f.is_di_wired || documented(
            f,
            params,
        )),
    }
}

/// A stop where a condition holds, and else an entry.
pub open spec fn stop_if(condition: bool) -> BoundaryDecision {
    if condition {
        BoundaryDecision::StopAtSurface
    } else {
        BoundaryDecision::EnterImplementation
    }
}

/// The decision of the syntactic policy. External targets are never entered.
/// Evidence is always looked into, and contracts of parents and written variables
/// never; for the rest the contract of the target decides. An implementation that is no
/// function has none: there the contract of the unit that it implements does.
pub open spec fn syntactic_decision(
    params: PruningParams,
    relation: ReasoningRelation,
    source: Node,
    target: Node,
    types: Map<Seq<char>, TypeInfo>,
) -> BoundaryDecision {
    if target.node_core().is_external {
        BoundaryDecision::StopAtSurface
    } else {
        match relation {
            ReasoningRelation::UsageEvidence
            | ReasoningRelation::ValueProvenance
            | ReasoningRelation::ChildImplementationEvidence
            | ReasoningRelation::ObservedBy => BoundaryDecision::EnterImplementation,
            ReasoningRelation::ParentContract
            | ReasoningRelation::Write => BoundaryDecision::StopAtSurface,
            ReasoningRelation::Read => match target {
                Node::Variable(v) => stop_if(v.mutability != Mutability::Mutable),
                Node::Function(_) => BoundaryDecision::Unknown,
            },
            ReasoningRelation::Call | ReasoningRelation::Annotates => match target {
                Node::Function(f) => stop_if(function_boundary(f, types, params)),
                Node::Variable(_) => BoundaryDecision::Unknown,
            },
            ReasoningRelation::DynamicDispatch => match target {
                Node::Function(f) => stop_if(function_boundary(f, types, params)),
                Node::Variable(_) => stop_if(reliable_contract(source, types, params)),
            },
        }
    }
}

impl SyntacticBoundaryPolicy {
    pub fn new(params: PruningParams) -> (r: Self)
        ensures
            r.params == params,
    {
        SyntacticBoundaryPolicy { params }
    }

    pub fn params(&self) -> (r: &PruningParams)
        ensures
            *r == self.params,
    {
        &self.params
    }

    fn evaluate_function(&self, target: &Node, type_registry: &TypeRegistry) -> (r:
        BoundaryDecision)
        requires
            type_registry.wf(),
        ensures
            r == match *target {
                Node::Function(f) => stop_if(function_boundary(f, type_registry@, self.params)),
                Node::Variable(_) => BoundaryDecision::Unknown,
            },
    {
        let function = match target {
            Node::Function(function) => function,
            Node::Variable(_) => {
                return BoundaryDecision::Unknown;
            },
        };
        let signature_complete = function.is_signature_complete_with_registry(type_registry);
        if function.is_di_wired && signature_complete {
            return BoundaryDecision::StopAtSurface;
        }
        let documented = function.core.doc_score.at_least(self.params.doc_threshold);
        if function.is_interface_method {
            return if signature_complete && documented {
                BoundaryDecision::StopAtSurface
            } else {
                BoundaryDecision::EnterImplementation
            };
        }
        if is_abstract_factory(target, type_registry, self.params.doc_threshold) {
            return BoundaryDecision::StopAtSurface;
        }
        if self.params.treat_typed_documented_function_as_boundary && signature_complete
            && documented {
            return BoundaryDecision::StopAtSurface;
        }
        BoundaryDecision::EnterImplementation
    }
}

impl BoundaryPolicy for SyntacticBoundaryPolicy {
    open spec fn decision(
        &self,
        reasoning_mode: ReasoningMode,
        relation: ReasoningRelation,
        source: Node,
        target: Node,
        type_registry: TypeRegistry,
    ) -> BoundaryDecision {
        syntactic_decision(self.params, relation, source, target, type_registry@)
    }

    open spec fn contract_decision(
        &self,
        reasoning_mode: ReasoningMode,
        node: Node,
        type_registry: TypeRegistry,
    ) -> BoundaryDecision {
        stop_if(reliable_contract(node, type_registry@, self.params))
    }

    open spec fn name(&self) -> Seq<char> {
        "syntactic:"@ + (if self.params.treat_typed_documented_function_as_boundary {
            "academic"@
        } else {
            "strict"@
        }) + ":doc="@ + self.params.doc_threshold.thousandths()
    }

    fn evaluate(
        &self,
        _reasoning_mode: ReasoningMode,
        relation: ReasoningRelation,
        source: &Node,
        target: &Node,
        type_registry: &TypeRegistry,
    ) -> (r: BoundaryDecision) {
        if target.node_core().is_external {
            return BoundaryDecision::StopAtSurface;
        }
        match relation {
            ReasoningRelation::UsageEvidence
            | ReasoningRelation::ValueProvenance
            | ReasoningRelation::ChildImplementationEvidence
            | ReasoningRelation::ObservedBy => BoundaryDecision::EnterImplementation,
            ReasoningRelation::ParentContract
            | ReasoningRelation::Write => BoundaryDecision::StopAtSurface,
            ReasoningRelation::Read => match target {
                Node::Variable(variable) => match variable.mutability {
                    Mutability::Const | Mutability::Immutable => BoundaryDecision::StopAtSurface,
                    Mutability::Mutable => BoundaryDecision::EnterImplementation,
                },
                Node::Function(_) => BoundaryDecision::Unknown,
            },
            ReasoningRelation::Call | ReasoningRelation::Annotates => self.evaluate_function(
                target,
                type_registry,
            ),
            ReasoningRelation::DynamicDispatch => match target {
                Node::Function(_) => self.evaluate_function(target, type_registry),
                Node::Variable(_) => self.evaluate_contract(
                    ReasoningMode::NeedContractEvidence,
                    source,
                    type_registry,
                ),
            },
        }
    }

    fn evaluate_contract(
        &self,
        _reasoning_mode: ReasoningMode,
        node: &Node,
        type_registry: &TypeRegistry,
    ) -> (r: BoundaryDecision) {
        if node.node_core().is_external {
            return BoundaryDecision::StopAtSurface;
        }
        match node {
            Node::Variable(variable) => match variable.mutability {
                Mutability::Const | Mutability::Immutable => BoundaryDecision::StopAtSurface,
                Mutability::Mutable => BoundaryDecision::EnterImplementation,
            },
            Node::Function(function) => {
                let signature_complete = function.is_signature_complete_with_registry(
                    type_registry,
                );
                if signature_complete && (function.is_di_wired || function.core.doc_score.at_least(
                    self.params.doc_threshold,
                )) {
                    BoundaryDecision::StopAtSurface
                } else {
                    BoundaryDecision::EnterImplementation
                }
            },
        }
    }

    fn id(&self) -> (r: String) {
        let mut r = String::from_str("syntactic:");
        if self.params.treat_typed_documented_function_as_boundary {
            r.append("academic");
        } else {
            r.append("strict");
        }
        r.append(":doc=");
        self.params.doc_threshold.push_thousandths(&mut r);
        r
    }
}

/// A function with fewer tokens per caller than this is a utility, whose callers are
/// not explored.
pub const UTILITY_TOKENS_PER_CALLER_THRESHOLD: usize = 10;

/// Whether a function returns an abstract type (an abstract factory). Such a
/// function with a complete signature is a valid boundary: the signatures of the
/// abstract type matter more than prose about it.
pub fn is_abstract_factory(
    function_node: &Node,
    type_registry: &TypeRegistry,
    _doc_threshold: Score,
) -> (r: bool)
    requires
        type_registry.wf(),
    ensures
        r == match *function_node {
            Node::Function(f) => abstract_factory(f, type_registry@),
            Node::Variable(_) => false,
        },
{
    let f = match function_node {
        Node::Function(f) => f,
        Node::Variable(_) => {
            return false;
        },
    };
    if f.return_types.is_empty() || !f.is_signature_complete_with_registry(type_registry) {
        return false;
    }
    let mut i: usize = 0;
    while i < f.return_types.len()
        invariant
            type_registry.wf(),
            *function_node == Node::Function(*f),
            f.signature_complete_with(type_registry@),
            i <= f.return_types@.len(),
            forall|k: int|
                0 <= k < i ==> !(type_registry@.contains_key((#[trigger] f.return_types@[k])@)
                    && type_registry@[f.return_types@[k]@].definition.is_abstract),
        decreases f.return_types@.len() - i,
    {
        if let Some(type_info) = type_registry.get(f.return_types[i].as_str()) {
            if type_info.definition.is_abstract {
                assert(type_registry@.contains_key(f.return_types@[i as int]@));
                return true;
            }
        }
        i += 1;
    }
    false
}

/// Whether a node has an edge of a kind to another, as the graph lists them.
pub open spec fn has_edge(
    graph: ContextGraph,
    source: NodeIndex,
    target: NodeIndex,
    kind: EdgeKind,
) -> bool {
    graph.outgoing(source).contains((target, kind))
}

/// Whether each node of a path calls the next.
pub open spec fn is_call_path(graph: ContextGraph, path: Seq<NodeIndex>) -> bool {
    &&& path.len() > 0
    &&& forall|k: int|
        #![trigger path[k]]
        0 <= k < path.len() - 1 ==> has_edge(graph, path[k], path[k + 1], EdgeKind::Call)
}

/// Whether a node writes some variable.
pub open spec fn writes(graph: ContextGraph, node: NodeIndex) -> bool {
    exists|target: NodeIndex| has_edge(graph, node, target, EdgeKind::Write)
}

/// Whether a node writes a variable, itself or through what it calls.
pub open spec fn has_side_effects(graph: ContextGraph, node: NodeIndex) -> bool {
    exists|path: Seq<NodeIndex>| #[trigger]
        is_call_path(graph, path) && path[0] == node && writes(graph, path.last())
}

/// Whether the callers of a function tell more about it. They do not if it was
/// reached by a call, constructs a type, is a small and much used utility, or has no
/// side effects. Of the others they do if the signature is incomplete, or leaves
/// freedom that no documentation narrows.
pub open spec fn explores_callers(
    func_node: FunctionNode,
    func_idx: NodeIndex,
    incoming_edge: Option<EdgeKind>,
    params: PruningParams,
    graph: ContextGraph,
) -> bool {
    let callers = graph.incoming(func_idx, Some(EdgeKind::Call)).len();
    &&& incoming_edge != Some(EdgeKind::Call)
    &&& !func_node.is_constructor
    &&& !(callers > 1 && func_node.core.context_size as nat / callers
        < UTILITY_TOKENS_PER_CALLER_THRESHOLD)
    &&& has_side_effects(graph, func_idx)
    &&& {
        ||| !func_node.signature_complete_with(graph.types())
        ||| {
            &&& exists|i: int|
                0 <= i < func_node.parameters@.len() && (
                #[trigger] func_node.parameters@[i]).is_high_freedom_type
            &&& func_node.core.doc_score.spec_below(params.doc_threshold)
        }
    }
}

/// Distinct numbers below a bound are no more than the bound.
pub proof fn lemma_distinct_below(list: Seq<NodeIndex>, bound: nat)
    requires
        list.no_duplicates(),
        forall|k: int| 0 <= k < list.len() ==> (#[trigger] list[k]).ix < bound,
    ensures
        list.len() <= bound,
{
    let numbers = list.map_values(|node: NodeIndex| node.ix as int);
    assert(numbers.no_duplicates()) by {
        assert forall|i: int, j: int|
            0 <= i < numbers.len() && 0 <= j < numbers.len() && i != j implies numbers[i]
            != numbers[j] by {
            assert(list[i] != list[j]);
        }
    }
    numbers.unique_seq_to_set();
    vstd::set_lib::lemma_int_range(0, bound as int);
    assert(numbers.to_set().subset_of(vstd::set_lib::set_int_range(0, bound as int))) by {
        assert forall|x: int| #[trigger] numbers.to_set().contains(x) implies 0 <= x < bound by {
            let k = choose|k: int| 0 <= k < numbers.len() && numbers[k] == x;
            assert(list[k].ix < bound);
        }
    }
    vstd::set_lib::lemma_len_subset(
        numbers.to_set(),
        vstd::set_lib::set_int_range(0, bound as int),
    );
}

/// A path stays within nodes that are closed under calls.
proof fn lemma_call_path_within(
    graph: ContextGraph,
    closed_nodes: Seq<NodeIndex>,
    path: Seq<NodeIndex>,
    k: int,
)
    requires
        is_call_path(graph, path),
        closed_nodes.contains(path[0]),
        forall|a: NodeIndex, b: NodeIndex|
            closed_nodes.contains(a) && #[trigger] has_edge(graph, a, b, EdgeKind::Call)
                ==> closed_nodes.contains(b),
        0 <= k < path.len(),
    ensures
        closed_nodes.contains(path[k]),
    decreases k,
{
    if k > 0 {
        lemma_call_path_within(graph, closed_nodes, path, k - 1);
        assert(has_edge(graph, path[k - 1], path[(k - 1) + 1], EdgeKind::Call));
    }
}

/// Tells whether a function writes a variable, itself or through what it calls.
fn check_side_effects(graph: &ContextGraph, func_idx: NodeIndex) -> (r: bool)
    requires
        graph.wf(),
        graph.has(func_idx),
    ensures
        r == has_side_effects(*graph, func_idx),
{
    let mut found: Vec<NodeIndex> = Vec::new();
    let mut seen: HashSet<u32> = HashSet::new();
    found.push(func_idx);
    seen.insert(func_idx.ix);
    let ghost total = graph.nodes().len();
    let mut i: usize = 0;
    proof {
        let path = seq![func_idx];
        assert(is_call_path(*graph, path) && path[0] == func_idx && path.last() == found@[0]);
    }
    while i < found.len()
        invariant
            graph.wf(),
            total == graph.nodes().len(),
            i <= found@.len() <= total,
            found@.len() > 0,
            found@[0] == func_idx,
            found@.no_duplicates(),
            forall|k: int| 0 <= k < found@.len() ==> graph.has(#[trigger] found@[k]),
            forall|k: int|
                0 <= k < found@.len() ==> seen@.contains((#[trigger] found@[k]).ix),
            forall|x: u32| #[trigger] seen@.contains(x) ==> found@.contains(NodeIndex { ix: x }),
            forall|k: int|
                #![trigger found@[k]]
                0 <= k < found@.len() ==> exists|path: Seq<NodeIndex>| #[trigger]
                    is_call_path(*graph, path) && path[0] == func_idx && path.last() == found@[k],
            forall|k: int, b: NodeIndex|
                #![trigger has_edge(*graph, found@[k], b, EdgeKind::Call)]
                0 <= k < i && has_edge(*graph, found@[k], b, EdgeKind::Call) ==> found@.contains(b),
            forall|k: int| #![trigger found@[k]] 0 <= k < i ==> !writes(*graph, found@[k]),
        decreases total - i,
    {
        let current = found[i];
        let edges = graph.outgoing_edges(current);
        let ghost path = choose|path: Seq<NodeIndex>| #[trigger]
            is_call_path(*graph, path) && path[0] == func_idx && path.last() == current;
        let mut j: usize = 0;
        while j < edges.len()
            invariant
                graph.wf(),
                total == graph.nodes().len(),
                i < found@.len() <= total,
                found@[0] == func_idx,
                found@[i as int] == current,
                found@.no_duplicates(),
                edges@ == graph.outgoing(current),
                j <= edges@.len(),
                is_call_path(*graph, path) && path[0] == func_idx && path.last() == current,
                forall|k: int| 0 <= k < edges@.len() ==> graph.has((#[trigger] edges@[k]).0),
                forall|k: int| 0 <= k < found@.len() ==> graph.has(#[trigger] found@[k]),
                forall|k: int|
                    0 <= k < found@.len() ==> seen@.contains((#[trigger] found@[k]).ix),
                forall|x: u32| #[trigger]
                    seen@.contains(x) ==> found@.contains(NodeIndex { ix: x }),
                forall|k: int|
                    #![trigger found@[k]]
                    0 <= k < found@.len() ==> exists|path: Seq<NodeIndex>| #[trigger]
                        is_call_path(*graph, path) && path[0] == func_idx && path.last()
                            == found@[k],
                forall|k: int, b: NodeIndex|
                    #![trigger has_edge(*graph, found@[k], b, EdgeKind::Call)]
                    0 <= k < i && has_edge(*graph, found@[k], b, EdgeKind::Call)
                        ==> found@.contains(b),
                forall|k: int| #![trigger found@[k]] 0 <= k < i ==> !writes(*graph, found@[k]),
                forall|k: int|
                    #![trigger edges@[k]]
                    0 <= k < j ==> edges@[k].1 != EdgeKind::Write && (edges@[k].1
                        == EdgeKind::Call ==> found@.contains(edges@[k].0)),
            decreases edges@.len() - j,
        {
            let (target, kind) = edges[j];
            if kind == EdgeKind::Write {
                proof {
                    assert(graph.outgoing(current)[j as int] == (target, EdgeKind::Write));
                    assert(has_edge(*graph, current, target, EdgeKind::Write));
                    assert(writes(*graph, path.last()));
                }
                return true;
            }
            if kind == EdgeKind::Call {
                let fresh = !seen.contains(&target.ix);
                if fresh {
                    let ghost before = found@;
                    seen.insert(target.ix);
                    found.push(target);
                    proof {
                        assert(NodeIndex { ix: target.ix } == target);
                        assert(!before.contains(target)) by {
                            if before.contains(target) {
                                let k = choose|k: int|
                                    0 <= k < before.len() && before[k] == target;
                                assert(before[k].ix == target.ix);
                            }
                        }
                        assert(found@.no_duplicates());
                        let longer = path.push(target);
                        assert(graph.outgoing(current)[j as int] == (target, EdgeKind::Call));
                        assert(has_edge(*graph, current, target, EdgeKind::Call));
                        assert forall|k: int|
                            #![trigger longer[k]]
                            0 <= k < longer.len() - 1 implies has_edge(
                            *graph,
                            longer[k],
                            longer[k + 1],
                            EdgeKind::Call,
                        ) by {
                            if k < path.len() - 1 {
                                assert(has_edge(*graph, path[k], path[k + 1], EdgeKind::Call));
                            }
                        }
                        assert(is_call_path(*graph, longer) && longer[0] == func_idx
                            && longer.last() == target);
                        assert forall|x: NodeIndex| #[trigger]
                            before.contains(x) implies found@.contains(x) by {
                            let k = choose|k: int| 0 <= k < before.len() && before[k] == x;
                            assert(found@[k] == x);
                        }
                        assert(found@[before.len() as int] == target);
                        assert forall|k: int|
                            #![trigger found@[k]]
                            0 <= k < found@.len() implies exists|path: Seq<NodeIndex>| #[trigger]
                            is_call_path(*graph, path) && path[0] == func_idx && path.last()
                                == found@[k] by {
                            if k < before.len() {
                                assert(before[k] == found@[k]);
                            }
                        }
                        lemma_distinct_below(found@, total);
                    }
                } else {
                    assert(NodeIndex { ix: target.ix } == target);
                }
            }
            j += 1;
        }
        proof {
            assert(!writes(*graph, current)) by {
                if writes(*graph, current) {
                    let target = choose|target: NodeIndex|
                        has_edge(*graph, current, target, EdgeKind::Write);
                    let k = choose|k: int|
                        0 <= k < edges@.len() && edges@[k] == (target, EdgeKind::Write);
                    assert(edges@[k].1 != EdgeKind::Write);
                }
            }
            assert forall|k: int, b: NodeIndex|
                #![trigger has_edge(*graph, found@[k], b, EdgeKind::Call)]
                0 <= k < i + 1 && has_edge(
                    *graph,
                    found@[k],
                    b,
                    EdgeKind::Call,
                ) implies found@.contains(b) by {
                if k == i {
                    let m = choose|m: int|
                        0 <= m < edges@.len() && edges@[m] == (b, EdgeKind::Call);
                    assert(edges@[m].1 == EdgeKind::Call);
                }
            }
        }
        i += 1;
    }
    proof {
        if has_side_effects(*graph, func_idx) {
            let path = choose|path: Seq<NodeIndex>| #[trigger]
                is_call_path(*graph, path) && path[0] == func_idx && writes(*graph, path.last());
            assert forall|a: NodeIndex, b: NodeIndex|
                found@.contains(a) && #[trigger] has_edge(
                    *graph,
                    a,
                    b,
                    EdgeKind::Call,
                ) implies found@.contains(b) by {
                let k = choose|k: int| 0 <= k < found@.len() && found@[k] == a;
                assert(has_edge(*graph, found@[k], b, EdgeKind::Call));
            }
            assert(found@[0] == path[0]);
            lemma_call_path_within(*graph, found@, path, path.len() - 1);
            let k = choose|k: int| 0 <= k < found@.len() && found@[k] == path.last();
            assert(!writes(*graph, found@[k]));
        }
    }
    false
}

/// Tells whether some parameter has a type that leaves much freedom.
fn has_high_freedom_params(func_node: &FunctionNode) -> (r: bool)
    ensures
        r == exists|i: int|
            0 <= i < func_node.parameters@.len() && (
            #[trigger] func_node.parameters@[i]).is_high_freedom_type,
{
    let mut i: usize = 0;
    while i < func_node.parameters.len()
        invariant
            i <= func_node.parameters@.len(),
            forall|k: int|
                0 <= k < i ==> !(#[trigger] func_node.parameters@[k]).is_high_freedom_type,
        decreases func_node.parameters@.len() - i,
    {
        if func_node.parameters[i].is_high_freedom_type {
            return true;
        }
        i += 1;
    }
    false
}

/// Whether to explore the callers of a function (call-in exploration).
pub fn should_explore_callers(
    func_node: &FunctionNode,
    func_idx: NodeIndex,
    incoming_edge: Option<&EdgeKind>,
    params: &PruningParams,
    graph: &ContextGraph,
) -> (r: bool)
    requires
        graph.wf(),
        graph.has(func_idx),
    ensures
        r == explores_callers(
            *func_node,
            func_idx,
            match incoming_edge {
                Some(kind) => Some(*kind),
                None => None,
            },
            *params,
            *graph,
        ),
{
    // Reached by a call: the calling context is known already.
    if let Some(kind) = incoming_edge {
        if *kind == EdgeKind::Call {
            return false;
        }
    }
    // Constructors are called from many places, and their purpose is plain.
    if func_node.is_constructor {
        return false;
    }
    let caller_count: usize = graph.incoming_edges(func_idx, Some(EdgeKind::Call)).len();
    if caller_count > 1 {
        let tokens_per_caller: usize = func_node.core.context_size as usize / caller_count;
        if tokens_per_caller < UTILITY_TOKENS_PER_CALLER_THRESHOLD {
            return false;
        }
    }
    if !check_side_effects(graph, func_idx) {
        return false;
    }
    if !func_node.is_signature_complete_with_registry(&graph.type_registry) {
        return true;
    }
    has_high_freedom_params(func_node) && func_node.core.doc_score.below(params.doc_threshold)
}

/// The forward pruning rule. Nothing is expanded from a stub (a node of size zero),
/// and external targets are boundaries. A variable is a boundary if it is read and
/// cannot change.
pub open spec fn forward_boundary(
    params: PruningParams,
    source: Node,
    target: Node,
    edge_kind: EdgeKind,
    types: Map<Seq<char>, TypeInfo>,
) -> bool {
    source.node_core().context_size == 0 || target.node_core().is_external || match target {
        Node::Variable(v) => edge_kind != EdgeKind::Write && v.mutability != Mutability::Mutable,
        Node::Function(f) => function_boundary(f, types, params),
    }
}

/// Boundary or transparent, for outgoing edges.
pub fn evaluate_forward(
    params: &PruningParams,
    source: &Node,
    target: &Node,
    edge_kind: &EdgeKind,
    graph: &ContextGraph,
) -> (r: PruningDecision)
    requires
        graph.type_registry.wf(),
    ensures
        r == if forward_boundary(*params, *source, *target, *edge_kind, graph.types()) {
            PruningDecision::Boundary
        } else {
            PruningDecision::Transparent
        },
{
    if source.node_core().context_size == 0 {
        return PruningDecision::Boundary;
    }
    if target.node_core().is_external {
        return PruningDecision::Boundary;
    }
    match target {
        Node::Variable(v) => match edge_kind {
            EdgeKind::Write => PruningDecision::Transparent,
            _ => match v.mutability {
                Mutability::Const | Mutability::Immutable => PruningDecision::Boundary,
                Mutability::Mutable => PruningDecision::Transparent,
            },
        },
        Node::Function(f) => {
            let signature_complete = f.is_signature_complete_with_registry(&graph.type_registry);
            if f.is_di_wired && signature_complete {
                return PruningDecision::Boundary;
            }
            if f.is_interface_method {
                if signature_complete && f.core.doc_score.at_least(params.doc_threshold) {
                    return PruningDecision::Boundary;
                }
                return PruningDecision::Transparent;
            }
            if is_abstract_factory(target, &graph.type_registry, params.doc_threshold) {
                return PruningDecision::Boundary;
            }
            if params.treat_typed_documented_function_as_boundary && signature_complete
                && f.core.doc_score.at_least(params.doc_threshold) {
                return PruningDecision::Boundary;
            }
            PruningDecision::Transparent
        },
    }
}

/// Another name of [`evaluate_forward`].
pub fn evaluate(
    params: &PruningParams,
    source: &Node,
    target: &Node,
    edge_kind: &EdgeKind,
    graph: &ContextGraph,
) -> (r: PruningDecision)
    requires
        graph.type_registry.wf(),
    ensures
        r == if forward_boundary(*params, *source, *target, *edge_kind, graph.types()) {
            PruningDecision::Boundary
        } else {
            PruningDecision::Transparent
        },
{
    evaluate_forward(params, source, target, edge_kind, graph)
}

/// Computes context sizes. How is up to the implementation, but the same text has one
/// size.
pub trait SizeFunction {
    /// The size of a span of a source, without the given documentation.
    open spec fn size(&self, source: Seq<char>, span: SourceSpan, doc_texts: Seq<Seq<char>>) -> u32 {
        arbitrary()
    }

    /// Computes the size of a span of a source. Documentation that is given may be
    /// left out of it, so that well-documented code is not punished.
    fn compute(&self, source: &str, span: &SourceSpan, doc_texts: &[String]) -> (r: u32)
        ensures
            r == self.size(source@, *span, text::texts(doc_texts@)),
    ;

    /// The name of the size function.
    fn id(&self) -> (r: &'static str)
        default_ensures
            r@ == "custom"@,
    {
        "custom"
    }
}

/// Evaluates the quality of documentation. How is up to the implementation, but the
/// same documentation has one score.
pub trait DocumentationScorer {
    /// The score of the documentation of a unit.
    open spec fn rating(&self, node_info: NodeInfoView, doc_text: Option<Seq<char>>) -> Score {
        arbitrary()
    }

    /// Scores documentation between zero (none, or meaningless) and one (complete and
    /// clear).
    fn score(&self, node_info: &NodeInfo, doc_text: Option<&str>) -> (r: Score)
        ensures
            r == self.rating(
                node_info@,
                match doc_text {
                    Some(text) => Some(text@),
                    None => None,
                },
            ),
    ;
}

/// What a scorer is told of a unit.
#[derive(Debug, Clone)]
pub struct NodeInfo {
    pub node_type: NodeType,
    pub name: String,
    /// Signature of a function.
    pub signature: Option<String>,
    /// Programming language.
    pub language: Option<String>,
}

/// What a scorer is told of a unit, as a value of the specification.
#[verifier::ext_equal]
pub struct NodeInfoView {
    pub node_type: NodeType,
    pub name: Seq<char>,
    pub signature: Option<Seq<char>>,
    pub language: Option<Seq<char>>,
}

impl View for NodeInfo {
    type V = NodeInfoView;

    open spec fn view(&self) -> NodeInfoView {
        NodeInfoView {
            node_type: self.node_type,
            name: self.name@,
            signature: text::optional_text(self.signature),
            language: text::optional_text(self.language),
        }
    }
}

} // verus!
