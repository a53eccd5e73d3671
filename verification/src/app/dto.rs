//! Requests and responses.

use crate::domain::score::Score;
use crate::domain::text;
use vstd::prelude::*;

verus! {

/// Which boundary policy to apply.
#[derive(Debug, Clone, Copy, PartialEq, Eq, Structural)]
pub enum PolicyKind {
    Academic,
    Strict,
}

impl Default for PolicyKind {
    fn default() -> (r: Self)
        ensures
            r == PolicyKind::Academic,
    {
        PolicyKind::Academic
    }
}

/// What an engine has loaded.
#[derive(Debug, Clone)]
pub struct HealthResponse {
    pub semantic_path: String,
    pub project_root: String,
    pub node_count: usize,
    pub edge_count: usize,
}

/// Asks for the footprint of some symbols.
#[derive(Debug, Clone)]
pub struct ComputeRequest {
    pub symbols: Vec<String>,
    pub policy: PolicyKind,
    pub max_tokens: Option<u32>,
}

/// The footprint of some symbols.
#[derive(Debug, Clone)]
pub struct ComputeResponse {
    pub starting_symbols: Vec<String>,
    /// The same as `cf_total`.
    pub total_context_size: u32,
    pub cf_total: u32,
    pub cf_out: u32,
    pub cf_in: u32,
    pub cf_overlap: u32,
    pub out_fragments: Vec<String>,
    pub in_fragments: Vec<String>,
    pub truncated: bool,
    pub unresolved_state_count: usize,
    pub boundary_stop_count: usize,
    pub boundary_stops: Vec<BoundaryStopDto>,
    pub boundary_policy_id: String,
    pub size_function_id: String,
    pub measurement_scope_id: String,
    pub graph_total_references: usize,
    pub graph_unresolved_calls: usize,
    pub graph_total_functions: usize,
    pub graph_functions_with_explicit_fragments: usize,
    pub reachable_node_count: usize,
    pub reachable_nodes_by_layer: Vec<Vec<ReachableNode>>,
    pub reachable_nodes_ordered: Vec<ReachableNode>,
    /// How each symbol was resolved.
    pub anchor_resolutions: Option<Vec<AnchorResolution>>,
}

/// How a symbol was interpreted.
#[derive(Debug, Clone)]
pub struct AnchorResolution {
    pub input: String,
    pub resolved_kind: String,
    /// For a class, the methods that stand for it.
    pub expanded_to: Option<Vec<String>>,
    /// Why the symbol stands for nothing.
    pub unresolved_reason: Option<String>,
}

/// A boundary at which traversal stopped.
#[derive(Debug, Clone)]
pub struct BoundaryStopDto {
    pub source_node_id: u32,
    pub target_node_id: u32,
    pub direction: String,
    pub relation: String,
}

/// How many witness paths are reported if nothing else is asked for.
pub fn default_max_paths() -> (r: usize)
    ensures
        r == 1,
{
    1
}

/// Asks which symbols are reached from others.
#[derive(Debug, Clone)]
pub struct ReachabilityRequest {
    pub from: Vec<String>,
    pub to: Vec<String>,
    pub policy: PolicyKind,
    pub witness_paths: bool,
    pub max_paths: usize,
}

/// Which symbols are reached.
#[derive(Debug, Clone)]
pub struct ReachabilityResponse {
    pub reachable: bool,
    pub hit_targets: Vec<String>,
    pub unresolved_from: Vec<String>,
    pub unresolved_to: Vec<String>,
    pub visited_node_count: usize,
    pub witness_paths: Vec<Vec<String>>,
}

/// A node of a footprint.
#[derive(Debug, Clone)]
pub struct ReachableNode {
    pub id: u32,
    pub symbol: String,
    pub node_type: String,
    pub context_size: u32,
    pub file_path: String,
    pub span: SpanDto,
    pub doc_score: Score,
    pub is_external: bool,
}

/// A range in a source file. Both ends are inclusive.
#[derive(Debug, Clone, Copy, PartialEq, Eq, Structural)]
pub struct SpanDto {
    /// Counted from zero.
    pub start_line: u32,
    /// Counted from zero.
    pub start_column: u32,
    /// Counted from zero.
    pub end_line: u32,
    /// Counted from zero.
    pub end_column: u32,
    /// Counted from one, for display.
    pub start_line_1based: u32,
    /// Counted from one, for display.
    pub end_line_1based: u32,
}

/// The footprints of all functions.
#[derive(Debug, Clone)]
pub struct StatsResponse {
    pub functions: CfDistribution,
}

/// A distribution of sizes.
#[derive(Debug, Clone)]
pub struct CfDistribution {
    pub count: usize,
    pub percentiles: Vec<PercentileValue>,
    pub average: u64,
    pub median: u32,
    pub min: u32,
    pub max: u32,
}

/// The size at a percentile.
#[derive(Debug, Clone, Copy, PartialEq, Eq, Structural)]
pub struct PercentileValue {
    pub percentile: u32,
    pub tokens: u32,
}

/// The symbols with the largest footprints.
#[derive(Debug, Clone)]
pub struct TopResponse {
    pub items: Vec<TopItem>,
}

/// A symbol with the size of its footprint.
#[derive(Debug, Clone)]
pub struct TopItem {
    pub symbol: String,
    pub node_type: String,
    pub cf: u32,
}

/// The symbols that match a pattern.
#[derive(Debug, Clone)]
pub struct SearchResponse {
    pub items: Vec<SearchItem>,
    pub total_matches: usize,
}

/// A symbol that matches, with the size of its footprint if it was asked for.
#[derive(Debug, Clone)]
pub struct SearchItem {
    pub symbol: String,
    pub node_type: String,
    pub cf: Option<u32>,
}

/// Asks for the context of a symbol.
#[derive(Debug, Clone)]
pub struct ContextRequest {
    pub symbol: String,
    pub policy: PolicyKind,
    pub max_tokens: Option<u32>,
    /// Whether to show source lines.
    pub include_code: bool,
    /// Whether to show the steps of the traversal.
    pub show_traversal: bool,
}

/// A step of a traversal.
#[derive(Debug, Clone)]
pub struct TraversalStepDto {
    pub node: ReachableNode,
    /// The kind of the edge that led to the node.
    pub edge_kind: Option<String>,
    /// The decision at that edge.
    pub decision: Option<String>,
    /// For functions, whether the signature is complete.
    pub is_signature_complete: Option<bool>,
}

/// The context of a symbol.
#[derive(Debug, Clone)]
pub struct ContextResponse {
    pub symbol: String,
    /// The same as `cf_total`.
    pub total_context_size: u32,
    pub cf_total: u32,
    pub cf_out: u32,
    pub cf_in: u32,
    pub cf_overlap: u32,
    pub out_fragments: Vec<String>,
    pub in_fragments: Vec<String>,
    pub truncated: bool,
    pub unresolved_state_count: usize,
    pub boundary_stop_count: usize,
    pub boundary_stops: Vec<BoundaryStopDto>,
    pub boundary_policy_id: String,
    pub size_function_id: String,
    pub measurement_scope_id: String,
    pub graph_total_references: usize,
    pub graph_unresolved_calls: usize,
    pub graph_total_functions: usize,
    pub graph_functions_with_explicit_fragments: usize,
    pub reachable_node_count: usize,
    pub layers: Vec<ContextLayer>,
    /// The steps of the traversal, if they were asked for.
    pub traversal_steps: Option<Vec<TraversalStepDto>>,
}

/// Nodes at one distance, by file.
#[derive(Debug, Clone)]
pub struct ContextLayer {
    pub depth: usize,
    pub files: Vec<ContextFile>,
}

/// Nodes of one file.
#[derive(Debug, Clone)]
pub struct ContextFile {
    pub file_path: String,
    pub nodes: Vec<ContextNode>,
}

/// A node with its source lines.
#[derive(Debug, Clone)]
pub struct ContextNode {
    pub id: u32,
    pub symbol: String,
    pub node_type: String,
    pub context_size: u32,
    pub span: SpanDto,
    pub doc_score: Score,
    pub is_external: bool,
    pub code: Option<Vec<CodeLine>>,
}

/// A source line.
#[derive(Debug, Clone)]
pub struct CodeLine {
    /// Counted from one.
    pub line_number: u32,
    pub text: String,
}

/// A boundary as a value of the specification.
#[verifier::ext_equal]
pub struct BoundaryStopView {
    pub source_node_id: u32,
    pub target_node_id: u32,
    pub direction: Seq<char>,
    pub relation: Seq<char>,
}

impl View for BoundaryStopDto {
    type V = BoundaryStopView;

    open spec fn view(&self) -> BoundaryStopView {
        BoundaryStopView {
            source_node_id: self.source_node_id,
            target_node_id: self.target_node_id,
            direction: self.direction@,
            relation: self.relation@,
        }
    }
}

/// A resolution as a value of the specification.
#[verifier::ext_equal]
pub struct AnchorView {
    pub input: Seq<char>,
    pub resolved_kind: Seq<char>,
    pub expanded_to: Option<Seq<Seq<char>>>,
    pub unresolved_reason: Option<Seq<char>>,
}

impl View for AnchorResolution {
    type V = AnchorView;

    open spec fn view(&self) -> AnchorView {
        AnchorView {
            input: self.input@,
            resolved_kind: self.resolved_kind@,
            expanded_to: match self.expanded_to {
                Some(list) => Some(text::texts(list@)),
                None => None,
            },
            unresolved_reason: text::optional_text(self.unresolved_reason),
        }
    }
}

/// A node of a footprint as a value of the specification.
#[verifier::ext_equal]
pub struct ReachableView {
    pub id: u32,
    pub symbol: Seq<char>,
    pub node_type: Seq<char>,
    pub context_size: u32,
    pub file_path: Seq<char>,
    pub span: SpanDto,
    pub doc_score: Score,
    pub is_external: bool,
}

impl View for ReachableNode {
    type V = ReachableView;

    open spec fn view(&self) -> ReachableView {
        ReachableView {
            id: self.id,
            symbol: self.symbol@,
            node_type: self.node_type@,
            context_size: self.context_size,
            file_path: self.file_path@,
            span: self.span,
            doc_score: self.doc_score,
            is_external: self.is_external,
        }
    }
}

/// The nodes of a list as values of the specification.
pub open spec fn reachable_views(list: Seq<ReachableNode>) -> Seq<ReachableView> {
    list.map_values(|node: ReachableNode| node@)
}

/// A symbol with the size of its footprint, as a value of the specification.
#[verifier::ext_equal]
pub struct RankedView {
    pub symbol: Seq<char>,
    pub node_type: Seq<char>,
    pub cf: u32,
}

impl View for TopItem {
    type V = RankedView;

    open spec fn view(&self) -> RankedView {
        RankedView { symbol: self.symbol@, node_type: self.node_type@, cf: self.cf }
    }
}

/// A symbol that matches, as a value of the specification.
#[verifier::ext_equal]
pub struct MatchView {
    pub symbol: Seq<char>,
    pub node_type: Seq<char>,
    pub cf: Option<u32>,
}

impl View for SearchItem {
    type V = MatchView;

    open spec fn view(&self) -> MatchView {
        MatchView { symbol: self.symbol@, node_type: self.node_type@, cf: self.cf }
    }
}

/// A step of a traversal as a value of the specification.
#[verifier::ext_equal]
pub struct StepView {
    pub node: ReachableView,
    pub edge_kind: Option<Seq<char>>,
    pub decision: Option<Seq<char>>,
    pub is_signature_complete: Option<bool>,
}

impl View for TraversalStepDto {
    type V = StepView;

    open spec fn view(&self) -> StepView {
        StepView {
            node: self.node@,
            edge_kind: text::optional_text(self.edge_kind),
            decision: text::optional_text(self.decision),
            is_signature_complete: self.is_signature_complete,
        }
    }
}

/// A source line as a value of the specification.
#[verifier::ext_equal]
pub struct CodeView {
    pub line_number: u32,
    pub text: Seq<char>,
}

impl View for CodeLine {
    type V = CodeView;

    open spec fn view(&self) -> CodeView {
        CodeView { line_number: self.line_number, text: self.text@ }
    }
}

/// Source lines as values of the specification.
pub open spec fn code_views(lines: Seq<CodeLine>) -> Seq<CodeView> {
    lines.map_values(|line: CodeLine| line@)
}

/// A node with its source lines as a value of the specification.
#[verifier::ext_equal]
pub struct ContextNodeView {
    pub id: u32,
    pub symbol: Seq<char>,
    pub node_type: Seq<char>,
    pub context_size: u32,
    pub span: SpanDto,
    pub doc_score: Score,
    pub is_external: bool,
    pub code: Option<Seq<CodeView>>,
}

impl View for ContextNode {
    type V = ContextNodeView;

    open spec fn view(&self) -> ContextNodeView {
        ContextNodeView {
            id: self.id,
            symbol: self.symbol@,
            node_type: self.node_type@,
            context_size: self.context_size,
            span: self.span,
            doc_score: self.doc_score,
            is_external: self.is_external,
            code: match self.code {
                Some(lines) => Some(code_views(lines@)),
                None => None,
            },
        }
    }
}

/// The nodes of a file as a value of the specification.
#[verifier::ext_equal]
pub struct ContextFileView {
    pub file_path: Seq<char>,
    pub nodes: Seq<ContextNodeView>,
}

impl View for ContextFile {
    type V = ContextFileView;

    open spec fn view(&self) -> ContextFileView {
        ContextFileView {
            file_path: self.file_path@,
            nodes: self.nodes@.map_values(|node: ContextNode| node@),
        }
    }
}

} // verus!
