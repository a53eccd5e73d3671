//! Answers requests about a graph.

use crate::app::dto;
use crate::app::dto::{
    BoundaryStopDto, BoundaryStopView, HealthResponse, PolicyKind, ReachableNode, ReachableView,
    SpanDto,
};
use crate::domain::edge::EdgeKind;
use crate::domain::graph::{ContextGraph, NodeIndex};
use crate::domain::node::{Mutability, Node, NodeId, SourceSpan, VariableKind, Visibility};
use crate::domain::policy::{PruningDecision, PruningParams, ReasoningRelation};
use crate::domain::score::Score;
use crate::domain::solver::{BoundaryStop, Direction};
use crate::domain::text;
use std::collections::HashMap;
use std::sync::Arc;
use vstd::prelude::*;
use vstd::string::StringExecFns;

verus! {

/// The engine: a graph with lookups by node identifier.
pub struct ContextEngine {
    pub semantic_path: String,
    pub project_root: String,
    pub graph: Arc<ContextGraph>,
    pub node_id_to_index: HashMap<NodeId, NodeIndex>,
    pub node_id_to_symbol: HashMap<NodeId, String>,
}

/// Why a request was not answered.
#[derive(Debug, Clone, PartialEq, Eq)]
pub enum EngineError {
    /// The symbol is neither a node nor a type.
    SymbolNotFound(String),
    /// A size or a line number is too large to be represented.
    Unrepresentable,
}

impl EngineError {
    /// What is wrong, in words.
    pub fn message(&self) -> (r: String)
        ensures
            r@ == match self {
                EngineError::SymbolNotFound(symbol) => "Symbol not found: "@ + symbol@,
                EngineError::Unrepresentable => "Number too large"@,
            },
    {
        match self {
            EngineError::SymbolNotFound(symbol) => {
                let mut r = String::from_str("Symbol not found: ");
                r.append(symbol.as_str());
                r
            },
            EngineError::Unrepresentable => String::from_str("Number too large"),
        }
    }
}

/// For each identifier the node that has it. Of several the last counts.
pub open spec fn index_by_id(nodes: Seq<Node>) -> Map<NodeId, NodeIndex>
    decreases nodes.len(),
{
    if nodes.len() == 0 {
        Map::empty()
    } else {
        index_by_id(nodes.drop_last()).insert(
            nodes.last().node_core().id,
            NodeIndex { ix: (nodes.len() - 1) as u32 },
        )
    }
}

/// For each identifier the symbol of a node that has it. Of several the first counts.
pub open spec fn symbol_by_id(graph: ContextGraph, symbols: Seq<Seq<char>>) -> Map<
    NodeId,
    Seq<char>,
>
    decreases symbols.len(),
{
    if symbols.len() == 0 {
        Map::empty()
    } else {
        let rest = symbol_by_id(graph, symbols.drop_last());
        let id = graph.at(graph.symbol_to_node@[symbols.last()]).node_core().id;
        if rest.contains_key(id) {
            rest
        } else {
            rest.insert(id, symbols.last())
        }
    }
}

/// Nodes are found by their identifiers.
pub proof fn lemma_index_by_id(nodes: Seq<Node>, i: int)
    requires
        nodes.len() <= u32::MAX,
        0 <= i < nodes.len(),
    ensures
        ({
            let id = nodes[i].node_core().id;
            let map = index_by_id(nodes);
            &&& map.contains_key(id)
            &&& map[id].ix < nodes.len()
            &&& nodes[map[id].ix as int].node_core().id == id
        }),
    decreases nodes.len(),
{
    let rest = nodes.drop_last();
    if i < rest.len() {
        lemma_index_by_id(rest, i);
        assert(rest[i] == nodes[i]);
        let k = index_by_id(rest)[nodes[i].node_core().id].ix as int;
        assert(rest[k] == nodes[k]);
    }
}

/// The parameters of a policy: scores of one half suffice for the academic policy,
/// and of four fifths for the strict one.
pub open spec fn params_of(kind: PolicyKind) -> PruningParams {
    match kind {
        PolicyKind::Academic => PruningParams {
            doc_threshold: Score { bits: 0x3f00_0000 },
            treat_typed_documented_function_as_boundary: true,
        },
        PolicyKind::Strict => PruningParams {
            doc_threshold: Score { bits: 0x3f4c_cccd },
            treat_typed_documented_function_as_boundary: false,
        },
    }
}

pub fn pruning_params(kind: PolicyKind) -> (r: PruningParams)
    ensures
        r == params_of(kind),
{
    match kind {
        PolicyKind::Academic => PruningParams::academic(Score::from_bits(0x3f00_0000)),
        PolicyKind::Strict => PruningParams::strict(Score::from_bits(0x3f4c_cccd)),
    }
}

pub open spec fn direction_text(direction: Direction) -> Seq<char> {
    match direction {
        Direction::In => "In"@,
        Direction::Out => "Out"@,
    }
}

fn direction_str(direction: Direction) -> (r: &'static str)
    ensures
        r@ == direction_text(direction),
{
    match direction {
        Direction::In => "In",
        Direction::Out => "Out",
    }
}

pub open spec fn relation_text(relation: ReasoningRelation) -> Seq<char> {
    match relation {
        ReasoningRelation::Call => "Call"@,
        ReasoningRelation::Read => "Read"@,
        ReasoningRelation::Write => "Write"@,
        ReasoningRelation::Annotates => "Annotates"@,
        ReasoningRelation::DynamicDispatch => "DynamicDispatch"@,
        ReasoningRelation::ValueProvenance => "ValueProvenance"@,
        ReasoningRelation::UsageEvidence => "UsageEvidence"@,
        ReasoningRelation::ParentContract => "ParentContract"@,
        ReasoningRelation::ChildImplementationEvidence => "ChildImplementationEvidence"@,
        ReasoningRelation::ObservedBy => "ObservedBy"@,
    }
}

fn relation_str(relation: ReasoningRelation) -> (r: &'static str)
    ensures
        r@ == relation_text(relation),
{
    match relation {
        ReasoningRelation::Call => "Call",
        ReasoningRelation::Read => "Read",
        ReasoningRelation::Write => "Write",
        ReasoningRelation::Annotates => "Annotates",
        ReasoningRelation::DynamicDispatch => "DynamicDispatch",
        ReasoningRelation::ValueProvenance => "ValueProvenance",
        ReasoningRelation::UsageEvidence => "UsageEvidence",
        ReasoningRelation::ParentContract => "ParentContract",
        ReasoningRelation::ChildImplementationEvidence => "ChildImplementationEvidence",
        ReasoningRelation::ObservedBy => "ObservedBy",
    }
}

pub open spec fn stop_view(stop: BoundaryStop) -> BoundaryStopView {
    BoundaryStopView {
        source_node_id: stop.source,
        target_node_id: stop.target,
        direction: direction_text(stop.direction),
        relation: relation_text(stop.relation),
    }
}

pub open spec fn stop_views(list: Seq<BoundaryStopDto>) -> Seq<BoundaryStopView> {
    list.map_values(|stop: BoundaryStopDto| stop@)
}

/// Boundaries with their directions and relations in words.
pub fn boundary_stop_dtos(stops: &Vec<BoundaryStop>) -> (r: Vec<BoundaryStopDto>)
    ensures
        stop_views(r@) == stops@.map_values(|stop: BoundaryStop| stop_view(stop)),
{
    let ghost all = stops@.map_values(|stop: BoundaryStop| stop_view(stop));
    let mut r: Vec<BoundaryStopDto> = Vec::new();
    let mut i: usize = 0;
    assert(stop_views(r@) =~= all.take(0));
    while i < stops.len()
        invariant
            all == stops@.map_values(|stop: BoundaryStop| stop_view(stop)),
            i <= stops@.len(),
            stop_views(r@) == all.take(i as int),
        decreases stops@.len() - i,
    {
        let ghost before = stop_views(r@);
        let stop = BoundaryStopDto {
            source_node_id: stops[i].source,
            target_node_id: stops[i].target,
            direction: String::from_str(direction_str(stops[i].direction)),
            relation: String::from_str(relation_str(stops[i].relation)),
        };
        r.push(stop);
        assert(stop_views(r@) =~= before.push(stop@));
        assert(all.take(i + 1) =~= all.take(i as int).push(all[i as int]));
        i += 1;
    }
    assert(all.take(i as int) =~= all);
    r
}

pub open spec fn node_type_text(node: Node) -> Seq<char> {
    match node {
        Node::Function(_) => "function"@,
        Node::Variable(_) => "variable"@,
    }
}

pub fn node_type_str(node: &Node) -> (r: &'static str)
    ensures
        r@ == node_type_text(*node),
{
    match node {
        Node::Function(_) => "function",
        Node::Variable(_) => "variable",
    }
}

pub open spec fn detailed_type_text(node: Node) -> Seq<char> {
    match node {
        Node::Function(f) => if f.core.scope is Some {
            "method"@
        } else {
            "function"@
        },
        Node::Variable(v) => if v.variable_kind == VariableKind::ClassField {
            "class_variable"@
        } else if v.mutability == Mutability::Const {
            "constant"@
        } else if v.variable_kind == VariableKind::Global {
            "module_variable"@
        } else {
            "variable"@
        },
    }
}

/// A more specific kind, for display and search results.
pub fn detailed_node_type_str(node: &Node) -> (r: &'static str)
    ensures
        r@ == detailed_type_text(*node),
{
    match node {
        Node::Function(f) => {
            if f.core.scope.is_some() {
                "method"
            } else {
                "function"
            }
        },
        Node::Variable(v) => {
            if v.variable_kind == VariableKind::ClassField {
                "class_variable"
            } else if v.mutability == Mutability::Const {
                "constant"
            } else if v.variable_kind == VariableKind::Global {
                "module_variable"
            } else {
                "variable"
            }
        },
    }
}

pub open spec fn edge_kind_text(kind: EdgeKind) -> Seq<char> {
    match kind {
        EdgeKind::Call => "Call"@,
        EdgeKind::Read => "Read"@,
        EdgeKind::Write => "Write"@,
        EdgeKind::OverriddenBy => "OverriddenBy"@,
        EdgeKind::Annotates => "Annotates"@,
    }
}

pub fn edge_kind_display(kind: &EdgeKind) -> (r: &'static str)
    ensures
        r@ == edge_kind_text(*kind),
{
    match kind {
        EdgeKind::Call => "Call",
        EdgeKind::Read => "Read",
        EdgeKind::Write => "Write",
        EdgeKind::OverriddenBy => "OverriddenBy",
        EdgeKind::Annotates => "Annotates",
    }
}

pub open spec fn decision_text(decision: PruningDecision) -> Seq<char> {
    match decision {
        PruningDecision::Boundary => "Boundary"@,
        PruningDecision::Transparent => "Transparent"@,
    }
}

pub fn decision_display(decision: &PruningDecision) -> (r: &'static str)
    ensures
        r@ == decision_text(*decision),
{
    match decision {
        PruningDecision::Boundary => "Boundary",
        PruningDecision::Transparent => "Transparent",
    }
}

/// Whether lines counted from one can be represented.
pub open spec fn lines_representable(span: SourceSpan) -> bool {
    span.start_line < u32::MAX && span.end_line < u32::MAX
}

pub open spec fn span_view(span: SourceSpan) -> SpanDto {
    SpanDto {
        start_line: span.start_line,
        start_column: span.start_column,
        end_line: span.end_line,
        end_column: span.end_column,
        start_line_1based: (span.start_line + 1) as u32,
        end_line_1based: (span.end_line + 1) as u32,
    }
}

/// A span with its lines counted from zero and from one.
pub fn span_dto(span: &SourceSpan) -> (r: SpanDto)
    requires
        lines_representable(*span),
    ensures
        r == span_view(*span),
{
    SpanDto {
        start_line: span.start_line,
        start_column: span.start_column,
        end_line: span.end_line,
        end_column: span.end_column,
        start_line_1based: span.start_line + 1,
        end_line_1based: span.end_line + 1,
    }
}

pub open spec fn is_public(node: Node) -> bool {
    match node {
        Node::Function(f) => f.visibility == Visibility::Public,
        Node::Variable(_) => false,
    }
}

/// Those symbols of a list that name public methods.
pub open spec fn public_among(graph: ContextGraph, symbols: Seq<Seq<char>>) -> Seq<Seq<char>>
    decreases symbols.len(),
{
    if symbols.len() == 0 {
        Seq::empty()
    } else {
        let rest = public_among(graph, symbols.drop_last());
        if is_public(graph.at(graph.symbol_to_node@[symbols.last()])) {
            rest.push(symbols.last())
        } else {
            rest
        }
    }
}

/// The public methods of a type, sorted.
pub open spec fn public_members(graph: ContextGraph, class_symbol: Seq<char>) -> Seq<Seq<char>> {
    public_among(graph, graph.class_members(class_symbol))
}

/// Expands a class into its public methods.
pub fn expand_class_anchor(graph: &ContextGraph, class_symbol: &str) -> (r: Vec<String>)
    requires
        graph.wf(),
    ensures
        text::texts(r@) == public_members(*graph, class_symbol@),
        forall|k: int|
            0 <= k < r@.len() ==> graph.symbol_to_node@.contains_key((#[trigger] r@[k])@),
{
    let members = graph.find_class_members(class_symbol);
    let ghost all = graph.class_members(class_symbol@);
    let mut r: Vec<String> = Vec::new();
    let mut i: usize = 0;
    assert(all.take(0) =~= Seq::empty());
    assert(text::texts(r@) =~= Seq::empty());
    while i < members.len()
        invariant
            graph.wf(),
            all == members@.map_values(|member: (String, NodeIndex)| member.0@),
            forall|k: int|
                #![trigger members@[k]]
                0 <= k < members@.len() ==> graph.symbol_to_node@.contains_key(members@[k].0@)
                    && graph.symbol_to_node@[members@[k].0@] == members@[k].1 && graph.has(
                    members@[k].1,
                ),
            i <= members@.len(),
            text::texts(r@) == public_among(*graph, all.take(i as int)),
            forall|k: int|
                0 <= k < r@.len() ==> graph.symbol_to_node@.contains_key((#[trigger] r@[k])@),
        decreases members@.len() - i,
    {
        proof {
            assert(all.take(i + 1).drop_last() =~= all.take(i as int));
            assert(all.take(i + 1).last() == members@[i as int].0@);
        }
        let public: bool = match graph.node(members[i].1) {
            Node::Function(f) => f.visibility == Visibility::Public,
            Node::Variable(_) => false,
        };
        if public {
            let symbol = members[i].0.clone();
            let ghost before = text::texts(r@);
            r.push(symbol);
            assert(text::texts(r@) =~= before.push(symbol@));
        }
        i += 1;
    }
    assert(all.take(i as int) =~= all);
    r
}

impl ContextEngine {
    /// The graph that requests are about.
    pub open spec fn context_graph(&self) -> ContextGraph {
        *self.graph
    }

    /// For each identifier the symbol of its node.
    pub open spec fn symbols(&self) -> Map<NodeId, Seq<char>> {
        symbol_by_id(*self.graph, self.graph.symbol_to_node.symbols())
    }

    /// The graph is valid, and the lookups are those of the graph.
    pub open spec fn wf(&self) -> bool {
        &&& self.graph.wf()
        &&& self.node_id_to_index@ == index_by_id(self.graph.nodes())
        &&& self.node_id_to_symbol@.map_values(|symbol: String| symbol@) == self.symbols()
    }

    /// An engine for a graph.
    pub fn from_prebuilt(
        semantic_path: String,
        project_root: String,
        graph: ContextGraph,
    ) -> (r: Self)
        requires
            graph.wf(),
        ensures
            r.wf(),
            r.context_graph() == graph,
            r.semantic_path == semantic_path,
            r.project_root == project_root,
    {
        let (node_id_to_index, node_id_to_symbol) = build_node_maps(&graph);
        ContextEngine {
            semantic_path,
            project_root,
            graph: Arc::new(graph),
            node_id_to_index,
            node_id_to_symbol,
        }
    }

    /// Whether a response says what the engine has loaded.
    pub open spec fn is_health(&self, r: HealthResponse) -> bool {
        &&& r.semantic_path@ == self.semantic_path@
        &&& r.project_root@ == self.project_root@
        &&& r.node_count == self.graph.nodes().len()
        &&& r.edge_count == self.graph.links().len()
    }

    /// What the engine has loaded.
    pub fn health(&self) -> (r: HealthResponse)
        ensures
            self.is_health(r),
    {
        HealthResponse {
            semantic_path: self.semantic_path.clone(),
            project_root: self.project_root.clone(),
            node_count: self.graph.node_count(),
            edge_count: self.graph.edge_count(),
        }
    }

    /// Takes over what was loaded anew from the same file, a root and a graph. Where
    /// loading failed, the engine stays as it is.
    pub fn reload<E>(&mut self, loaded: Result<(String, ContextGraph), E>) -> (r: Result<
        HealthResponse,
        E,
    >)
        requires
            loaded matches Ok(project) ==> project.1.wf(),
        ensures
            match loaded {
                Ok(project) => {
                    &&& r is Ok
                    &&& final(self).wf()
                    &&& final(self).context_graph() == project.1
                    &&& final(self).project_root == project.0
                    &&& final(self).semantic_path == old(self).semantic_path
                    &&& final(self).is_health(r->Ok_0)
                },
                Err(error) => r == Err::<HealthResponse, E>(error) && *final(self) == *old(self),
            },
    {
        match loaded {
            Ok((project_root, graph)) => {
                let (node_id_to_index, node_id_to_symbol) = build_node_maps(&graph);
                self.project_root = project_root;
                self.graph = Arc::new(graph);
                self.node_id_to_index = node_id_to_index;
                self.node_id_to_symbol = node_id_to_symbol;
                Ok(self.health())
            },
            Err(error) => Err(error),
        }
    }

    /// The symbol of the node with an identifier, or the name of the node.
    pub open spec fn label(&self, id: NodeId) -> Seq<char> {
        if self.symbols().contains_key(id) {
            self.symbols()[id]
        } else {
            self.node_with(id).node_core().name@
        }
    }

    /// The node with an identifier.
    pub open spec fn node_with(&self, id: NodeId) -> Node {
        self.graph.at(index_by_id(self.graph.nodes())[id])
    }

    /// The node with an identifier, as it is reported.
    pub open spec fn reported_node(&self, id: NodeId) -> ReachableView {
        let node = self.node_with(id);
        ReachableView {
            id,
            symbol: self.label(id),
            node_type: node_type_text(node),
            context_size: node.node_core().context_size,
            file_path: node.node_core().file_path@,
            span: span_view(node.node_core().span),
            doc_score: node.node_core().doc_score,
            is_external: node.node_core().is_external,
        }
    }

    /// Whether nodes with an identifier exist, and can be reported.
    pub open spec fn reportable(&self, id: NodeId) -> bool {
        &&& index_by_id(self.graph.nodes()).contains_key(id)
        &&& self.graph.has(index_by_id(self.graph.nodes())[id])
        &&& lines_representable(self.node_with(id).node_core().span)
    }

    /// Whether all identifiers of a list can be reported.
    pub open spec fn all_reportable(&self, ids: Seq<NodeId>) -> bool {
        forall|k: int| 0 <= k < ids.len() ==> self.reportable(#[trigger] ids[k])
    }

    pub(crate) fn label_of(&self, id: NodeId, node: &Node) -> (r: String)
        requires
            self.wf(),
            *node == self.node_with(id),
        ensures
            r@ == self.label(id),
    {
        match self.node_id_to_symbol.get(&id) {
            Some(symbol) => {
                assert(self.symbols().contains_key(id) && self.symbols()[id] == symbol@);
                symbol.clone()
            },
            None => {
                assert(!self.node_id_to_symbol@.map_values(|symbol: String| symbol@).contains_key(
                    id,
                ));
                node.node_core().name.clone()
            },
        }
    }

    /// Reports the node with an identifier.
    pub(crate) fn reachable_node(&self, id: NodeId) -> (r: ReachableNode)
        requires
            self.wf(),
            self.reportable(id),
        ensures
            r@ == self.reported_node(id),
    {
        let idx = *self.node_id_to_index.get(&id).unwrap();
        let node = self.graph.node(idx);
        let symbol = self.label_of(id, node);
        ReachableNode {
            id,
            symbol,
            node_type: String::from_str(node_type_str(node)),
            context_size: node.node_core().context_size,
            file_path: node.node_core().file_path.clone(),
            span: span_dto(&node.node_core().span),
            doc_score: node.node_core().doc_score,
            is_external: node.node_core().is_external,
        }
    }

    /// Whether all identifiers of a list can be reported.
    pub(crate) fn check_reportable(&self, ids: &Vec<NodeId>) -> (r: bool)
        requires
            self.wf(),
        ensures
            r == self.all_reportable(ids@),
    {
        let mut i: usize = 0;
        while i < ids.len()
            invariant
                self.wf(),
                i <= ids@.len(),
                forall|k: int| 0 <= k < i ==> self.reportable(#[trigger] ids@[k]),
            decreases ids@.len() - i,
        {
            let fits: bool = match self.node_id_to_index.get(&ids[i]) {
                Some(idx) => {
                    if (idx.ix as usize) < self.graph.node_count() {
                        let span = &self.graph.node(*idx).node_core().span;
                        span.start_line < u32::MAX && span.end_line < u32::MAX
                    } else {
                        false
                    }
                },
                None => false,
            };
            if !fits {
                assert(!self.reportable(ids@[i as int]));
                return false;
            }
            i += 1;
        }
        true
    }

    /// Reports the nodes with the identifiers of a list.
    pub(crate) fn reachable_nodes(&self, ids: &Vec<NodeId>) -> (r: Vec<ReachableNode>)
        requires
            self.wf(),
            self.all_reportable(ids@),
        ensures
            dto::reachable_views(r@) == ids@.map_values(|id: NodeId| self.reported_node(id)),
    {
        let ghost all = ids@.map_values(|id: NodeId| self.reported_node(id));
        let mut r: Vec<ReachableNode> = Vec::new();
        let mut i: usize = 0;
        assert(dto::reachable_views(r@) =~= all.take(0));
        while i < ids.len()
            invariant
                self.wf(),
                self.all_reportable(ids@),
                all == ids@.map_values(|id: NodeId| self.reported_node(id)),
                i <= ids@.len(),
                dto::reachable_views(r@) == all.take(i as int),
            decreases ids@.len() - i,
        {
            let ghost before = dto::reachable_views(r@);
            let node = self.reachable_node(ids[i]);
            r.push(node);
            assert(dto::reachable_views(r@) =~= before.push(node@));
            assert(all.take(i + 1) =~= all.take(i as int).push(all[i as int]));
            i += 1;
        }
        assert(all.take(i as int) =~= all);
        r
    }
}

/// The lookups of a graph: nodes by identifier, and symbols by identifier.
fn build_node_maps(graph: &ContextGraph) -> (r: (HashMap<NodeId, NodeIndex>, HashMap<
    NodeId,
    String,
>))
    requires
        graph.wf(),
    ensures
        r.0@ == index_by_id(graph.nodes()),
        r.1@.map_values(|symbol: String| symbol@) == symbol_by_id(
            *graph,
            graph.symbol_to_node.symbols(),
        ),
{
    let ghost nodes = graph.nodes();
    let mut by_id: HashMap<NodeId, NodeIndex> = HashMap::new();
    let count: usize = graph.node_count();
    let mut i: usize = 0;
    assert(nodes.take(0) =~= Seq::empty());
    while i < count
        invariant
            graph.wf(),
            nodes == graph.nodes(),
            count == nodes.len(),
            i <= count,
            by_id@ == index_by_id(nodes.take(i as int)),
        decreases count - i,
    {
        let idx = NodeIndex::new(i);
        assert(nodes.take(i + 1).drop_last() =~= nodes.take(i as int));
        by_id.insert(graph.node(idx).node_core().id, idx);
        i += 1;
    }
    assert(nodes.take(i as int) =~= nodes);
    let ghost symbols = graph.symbol_to_node.symbols();
    let mut names: HashMap<NodeId, String> = HashMap::new();
    let n: usize = graph.symbol_to_node.len();
    let mut j: usize = 0;
    assert(symbols.take(0) =~= Seq::empty());
    assert(names@.map_values(|symbol: String| symbol@) =~= Map::empty());
    while j < n
        invariant
            graph.wf(),
            symbols == graph.symbol_to_node.symbols(),
            n == symbols.len(),
            j <= n,
            names@.map_values(|symbol: String| symbol@) == symbol_by_id(
                *graph,
                symbols.take(j as int),
            ),
        decreases n - j,
    {
        let idx = *graph.symbol_to_node.value_at(j);
        assert(symbols.take(j + 1).drop_last() =~= symbols.take(j as int));
        assert(graph.has(idx));
        let id: NodeId = graph.node(idx).node_core().id;
        let ghost before = names@.map_values(|symbol: String| symbol@);
        assert(before.contains_key(id) == names@.contains_key(id));
        if !names.contains_key(&id) {
            let symbol = graph.symbol_to_node.key_at(j).clone();
            names.insert(id, symbol);
            assert(names@.map_values(|symbol: String| symbol@) =~= before.insert(id, symbol@));
        }
        j += 1;
    }
    assert(symbols.take(j as int) =~= symbols);
    (by_id, names)
}

} // verus!
