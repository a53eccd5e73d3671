//! The context of a symbol: the nodes of its footprint by file, with their source lines.

use crate::app::anchors;
use crate::app::dto;
use crate::app::dto::{
    CodeLine, CodeView, ContextFile, ContextFileView, ContextLayer, ContextNode, ContextNodeView,
    ContextRequest, ContextResponse, StepView, TraversalStepDto,
};
use crate::app::engine;
use crate::app::engine::{
    boundary_stop_dtos, decision_display, edge_kind_display, node_type_str, span_dto,
    ContextEngine, EngineError,
};
use crate::domain::graph::{ContextGraph, NodeIndex};
use crate::domain::node::{Node, NodeId};
use crate::domain::solver;
use crate::domain::solver::{CfResult, Footprint, TraversalStep};
use crate::domain::sort;
use crate::domain::sort::sort_positions;
use crate::domain::symbol_table::SymbolTable;
use crate::domain::text;
use crate::domain::text::{chars_of, contains_text};
use vstd::prelude::*;
use vstd::string::StringExecFns;

verus! {

/// Whether a symbol is that of a parameter: it ends with a name in brackets after
/// those of a function.
pub open spec fn is_parameter(symbol: Seq<char>) -> bool {
    text::occurs("().("@, symbol) && symbol.len() > 0 && symbol.last() == ')'
}

pub fn symbol_is_parameter(symbol: &str) -> (r: bool)
    ensures
        r == is_parameter(symbol@),
{
    if !contains_text(symbol, "().(") {
        return false;
    }
    let chars = chars_of(symbol);
    chars.len() > 0 && chars[chars.len() - 1] == ')'
}

/// The lines from one number to another, both inclusive and counted from zero, as far
/// as there are any.
pub open spec fn lines_between(lines: Seq<Seq<char>>, start: int, end: int) -> Seq<Seq<char>> {
    lines.subrange(clipped(lines, start), clipped(lines, end + 1))
}

/// A line number, or the number of lines where there are fewer.
pub open spec fn clipped(lines: Seq<Seq<char>>, n: int) -> int {
    if n < lines.len() {
        n
    } else {
        lines.len() as int
    }
}

/// Selects the lines from one number to another, both inclusive and counted from
/// zero, as far as there are any.
pub fn select_lines(lines: &Vec<String>, start_line: usize, end_line: usize) -> (r: Vec<String>)
    requires
        end_line < usize::MAX,
        clipped(text::texts(lines@), start_line as int) <= clipped(
            text::texts(lines@),
            end_line + 1,
        ),
    ensures
        text::texts(r@) == lines_between(
            text::texts(lines@),
            start_line as int,
            end_line as int,
        ),
{
    let ghost all = text::texts(lines@);
    let start: usize = if start_line < lines.len() {
        start_line
    } else {
        lines.len()
    };
    let end: usize = if end_line + 1 < lines.len() {
        end_line + 1
    } else {
        lines.len()
    };
    let mut r: Vec<String> = Vec::new();
    let mut i: usize = start;
    assert(text::texts(r@) =~= all.subrange(start as int, start as int));
    while i < end
        invariant
            all == text::texts(lines@),
            start <= i <= end <= lines@.len(),
            text::texts(r@) == all.subrange(start as int, i as int),
        decreases end - i,
    {
        let ghost before = text::texts(r@);
        let line = lines[i].clone();
        r.push(line);
        i += 1;
        assert(text::texts(r@) =~= before.push(line@));
        assert(all.subrange(start as int, i as int) =~= before.push(all[i - 1]));
    }
    r
}

/// The file of a node.
pub open spec fn file_of(graph: ContextGraph, idx: NodeIndex) -> Seq<char> {
    graph.at(idx).node_core().file_path@
}

/// The first line of a node.
pub open spec fn line_of(graph: ContextGraph, idx: NodeIndex) -> u32 {
    graph.at(idx).node_core().span.start_line
}

/// The files of some nodes, each once.
pub open spec fn files_of(graph: ContextGraph, nodes: Seq<NodeIndex>) -> Seq<Seq<char>>
    decreases nodes.len(),
{
    if nodes.len() == 0 {
        Seq::empty()
    } else {
        let rest = files_of(graph, nodes.drop_last());
        let file = file_of(graph, nodes.last());
        if rest.contains(file) {
            rest
        } else {
            rest.push(file)
        }
    }
}

/// Those of some nodes that are in a file.
pub open spec fn nodes_in(
    graph: ContextGraph,
    nodes: Seq<NodeIndex>,
    file: Seq<char>,
) -> Seq<NodeIndex>
    decreases nodes.len(),
{
    if nodes.len() == 0 {
        Seq::empty()
    } else {
        let rest = nodes_in(graph, nodes.drop_last(), file);
        if file_of(graph, nodes.last()) == file {
            rest.push(nodes.last())
        } else {
            rest
        }
    }
}

/// Nodes by their first lines.
pub open spec fn by_line(graph: ContextGraph, nodes: Seq<NodeIndex>) -> Seq<NodeIndex> {
    sort::stable_order(
        nodes.len(),
        sort::key_order(nodes.map_values(|idx: NodeIndex| line_of(graph, idx))),
    ).map_values(|k: usize| nodes[k as int])
}

/// Whether the lines of a node lie within those of another node of a list.
pub open spec fn is_contained(graph: ContextGraph, earlier: Seq<NodeIndex>, idx: NodeIndex) -> bool {
    exists|k: int| 0 <= k < earlier.len() && lies_within(graph, #[trigger] earlier[k], idx)
}

/// Whether the lines of a node lie within those of another.
pub open spec fn lies_within(graph: ContextGraph, outer: NodeIndex, idx: NodeIndex) -> bool {
    let a = graph.at(outer).node_core().span;
    let b = graph.at(idx).node_core().span;
    b.start_line >= a.start_line && b.end_line <= a.end_line && idx != outer
}

/// What is asked of the source of a node: lines of a file, both ends inclusive.
#[derive(Debug, Clone)]
pub struct CodeRequest {
    pub file_path: String,
    pub start_line: u32,
    pub end_line: u32,
}

/// A request for source lines as a value of the specification.
#[verifier::ext_equal]
pub struct CodeRequestView {
    pub file_path: Seq<char>,
    pub start_line: u32,
    pub end_line: u32,
}

impl View for CodeRequest {
    type V = CodeRequestView;

    open spec fn view(&self) -> CodeRequestView {
        CodeRequestView {
            file_path: self.file_path@,
            start_line: self.start_line,
            end_line: self.end_line,
        }
    }
}

/// The source lines that are asked for to show a node.
pub open spec fn request_for(graph: ContextGraph, idx: NodeIndex) -> CodeRequestView {
    let core_value = graph.at(idx).node_core();
    CodeRequestView {
        file_path: core_value.file_path@,
        start_line: core_value.span.start_line,
        end_line: core_value.span.end_line,
    }
}

/// Source lines with their numbers, given how many lines come before.
pub open spec fn numbered(start_line: u32, lines: Seq<Seq<char>>) -> Seq<CodeView> {
    Seq::new(
        lines.len(),
        |i: int| CodeView { line_number: (start_line + 1 + i) as u32, text: lines[i] },
    )
}

/// What a response with a context reports.
pub open spec fn context_summary(r: ContextResponse) -> anchors::Summary {
    anchors::Summary {
        total_context_size: r.total_context_size as nat,
        cf_total: r.cf_total as nat,
        cf_out: r.cf_out as nat,
        cf_in: r.cf_in as nat,
        cf_overlap: r.cf_overlap as nat,
        out_fragments: text::texts(r.out_fragments@),
        in_fragments: text::texts(r.in_fragments@),
        truncated: r.truncated,
        unresolved_state_count: r.unresolved_state_count as nat,
        boundary_stop_count: r.boundary_stop_count as nat,
        boundary_stops: engine::stop_views(r.boundary_stops@),
        boundary_policy_id: r.boundary_policy_id@,
        size_function_id: r.size_function_id@,
        measurement_scope_id: r.measurement_scope_id@,
        graph_total_references: r.graph_total_references as nat,
        graph_unresolved_calls: r.graph_unresolved_calls as nat,
        graph_total_functions: r.graph_total_functions as nat,
        graph_functions_with_explicit_fragments:
            r.graph_functions_with_explicit_fragments as nat,
        reachable_node_count: r.reachable_node_count as nat,
    }
}

/// The lists of a list as values of the specification.
pub open spec fn all_texts(list: Seq<Vec<String>>) -> Seq<Seq<Seq<char>>> {
    list.map_values(|texts: Vec<String>| text::texts(texts@))
}

impl ContextEngine {
    /// The symbol of a node, or nothing.
    pub open spec fn symbol_at(&self, idx: NodeIndex) -> Seq<char> {
        let id = self.graph.at(idx).node_core().id;
        if self.symbols().contains_key(id) {
            self.symbols()[id]
        } else {
            Seq::empty()
        }
    }

    /// Those of some nodes that are shown: parameters are not, nor nodes whose lines
    /// lie within those of a node that is shown already.
    pub open spec fn top_level(&self, nodes: Seq<NodeIndex>) -> Seq<NodeIndex>
        decreases nodes.len(),
    {
        if nodes.len() == 0 {
            Seq::empty()
        } else {
            let rest = self.top_level(nodes.drop_last());
            let idx = nodes.last();
            if is_contained(*self.graph, rest, idx) || is_parameter(self.symbol_at(idx)) {
                rest
            } else {
                rest.push(idx)
            }
        }
    }

    /// Those of some nodes that are shown under a file.
    pub open spec fn shown_in(&self, nodes: Seq<NodeIndex>, file: Seq<char>) -> Seq<NodeIndex> {
        self.top_level(by_line(*self.graph, nodes_in(*self.graph, nodes, file)))
    }

    /// Those of some nodes that are shown under files of a list, in that order.
    pub open spec fn shown(
        &self,
        nodes: Seq<NodeIndex>,
        files: Seq<Seq<char>>,
    ) -> Seq<NodeIndex>
        decreases files.len(),
    {
        if files.len() == 0 {
            Seq::empty()
        } else {
            self.shown(nodes, files.drop_last()) + self.shown_in(nodes, files.last())
        }
    }

    /// The nodes of a footprint, found by their identifiers.
    pub open spec fn layer_nodes(&self, footprint: Footprint) -> Seq<NodeIndex> {
        self.footprint_ids(footprint).map_values(
            |id: NodeId| engine::index_by_id(self.graph.nodes())[id],
        )
    }

    /// The files of a footprint, sorted.
    pub open spec fn layer_files(&self, footprint: Footprint) -> Seq<Seq<char>> {
        sort::sorted_texts(files_of(*self.graph, self.layer_nodes(footprint)))
    }

    /// The nodes of a footprint that are shown.
    pub open spec fn shown_nodes(&self, footprint: Footprint) -> Seq<NodeIndex> {
        self.shown(self.layer_nodes(footprint), self.layer_files(footprint))
    }

    /// A node as it is shown.
    pub open spec fn context_node(
        &self,
        idx: NodeIndex,
        code: Option<Seq<Seq<char>>>,
    ) -> ContextNodeView {
        let node = self.graph.at(idx);
        let core_value = node.node_core();
        ContextNodeView {
            id: core_value.id,
            symbol: if self.symbols().contains_key(core_value.id) {
                self.symbols()[core_value.id]
            } else {
                core_value.name@
            },
            node_type: engine::node_type_text(node),
            context_size: core_value.context_size,
            span: engine::span_view(core_value.span),
            doc_score: core_value.doc_score,
            is_external: core_value.is_external,
            code: match code {
                Some(lines) => Some(numbered(core_value.span.start_line, lines)),
                None => None,
            },
        }
    }

    /// Nodes as they are shown. The first of them has its source lines at an offset.
    pub open spec fn context_nodes(
        &self,
        nodes: Seq<NodeIndex>,
        code: Option<Seq<Seq<Seq<char>>>>,
        offset: int,
    ) -> Seq<ContextNodeView> {
        Seq::new(
            nodes.len(),
            |k: int|
                self.context_node(
                    nodes[k],
                    match code {
                        Some(list) => Some(list[offset + k]),
                        None => None,
                    },
                ),
        )
    }

    /// Nodes as they are shown, by files.
    pub open spec fn context_files(
        &self,
        nodes: Seq<NodeIndex>,
        files: Seq<Seq<char>>,
        code: Option<Seq<Seq<Seq<char>>>>,
    ) -> Seq<ContextFileView>
        decreases files.len(),
    {
        if files.len() == 0 {
            Seq::empty()
        } else {
            let rest = files.drop_last();
            self.context_files(nodes, rest, code).push(
                ContextFileView {
                    file_path: files.last(),
                    nodes: self.context_nodes(
                        self.shown_in(nodes, files.last()),
                        code,
                        self.shown(nodes, rest).len() as int,
                    ),
                },
            )
        }
    }

    /// Whether the line numbers of a node can be represented, given its source lines.
    pub open spec fn node_fits(&self, idx: NodeIndex, code: Option<Seq<Seq<char>>>) -> bool {
        let span = self.graph.at(idx).node_core().span;
        &&& engine::lines_representable(span)
        &&& code matches Some(lines) ==> span.start_line + lines.len() <= u32::MAX
    }

    /// Whether the line numbers of nodes can be represented, given source lines from
    /// an offset on.
    pub open spec fn nodes_fit(
        &self,
        nodes: Seq<NodeIndex>,
        code: Option<Seq<Seq<Seq<char>>>>,
        offset: int,
    ) -> bool {
        forall|k: int|
            0 <= k < nodes.len() ==> self.node_fits(
                #[trigger] nodes[k],
                match code {
                    Some(list) => Some(list[offset + k]),
                    None => None,
                },
            )
    }

    /// How a step of a traversal is shown.
    pub open spec fn step_view(&self, step: TraversalStep) -> StepView {
        StepView {
            node: self.reported_node(step.node_id),
            edge_kind: match step.incoming_edge_kind {
                Some(kind) => Some(engine::edge_kind_text(kind)),
                None => None,
            },
            decision: match step.decision {
                Some(decision) => Some(engine::decision_text(decision)),
                None => None,
            },
            is_signature_complete: match self.node_with(step.node_id) {
                Node::Function(f) => Some(f.signature_complete()),
                Node::Variable(_) => None,
            },
        }
    }
}

/// Whether groups hold the nodes that are shown under files of a list.
pub open spec fn grouped(
    engine: ContextEngine,
    groups: Seq<(String, Vec<NodeIndex>)>,
    nodes: Seq<NodeIndex>,
    files: Seq<Seq<char>>,
) -> bool {
    &&& groups.len() == files.len()
    &&& forall|k: int|
        #![trigger groups[k]]
        0 <= k < groups.len() ==> {
            &&& groups[k].0@ == files[k]
            &&& groups[k].1@ == engine.shown_in(nodes, files[k])
            &&& all_known(*engine.graph, groups[k].1@)
        }
}

/// Whether all nodes of a list are nodes of a graph.
pub open spec fn all_known(graph: ContextGraph, nodes: Seq<NodeIndex>) -> bool {
    forall|k: int| 0 <= k < nodes.len() ==> graph.has(#[trigger] nodes[k])
}

/// Groups nodes by file, in the order in which files come first.
fn group_by_file(graph: &ContextGraph, nodes: &Vec<NodeIndex>) -> (r: SymbolTable<Vec<NodeIndex>>)
    requires
        all_known(*graph, nodes@),
    ensures
        r.wf(),
        r.symbols() == files_of(*graph, nodes@),
        forall|file: Seq<char>| #[trigger]
            r@.contains_key(file) ==> r@[file]@ == nodes_in(*graph, nodes@, file) && all_known(
                *graph,
                r@[file]@,
            ),
{
    let mut r: SymbolTable<Vec<NodeIndex>> = SymbolTable::new();
    let mut i: usize = 0;
    assert(nodes@.take(0) =~= Seq::empty());
    while i < nodes.len()
        invariant
            all_known(*graph, nodes@),
            i <= nodes@.len(),
            r.wf(),
            r.symbols() == files_of(*graph, nodes@.take(i as int)),
            forall|file: Seq<char>| #[trigger]
                r@.contains_key(file) ==> r@[file]@ == nodes_in(
                    *graph,
                    nodes@.take(i as int),
                    file,
                ) && all_known(*graph, r@[file]@),
            forall|file: Seq<char>|
                !(#[trigger] r@.contains_key(file)) ==> nodes_in(
                    *graph,
                    nodes@.take(i as int),
                    file,
                ) == Seq::<NodeIndex>::empty(),
        decreases nodes@.len() - i,
    {
        let idx = nodes[i];
        let file = &graph.node(idx).node_core().file_path;
        let ghost before = r@;
        proof {
            assert(nodes@.take(i + 1).drop_last() =~= nodes@.take(i as int));
            assert(nodes@.take(i + 1).last() == idx);
            r.lemma_symbols();
            if r.symbols().contains(file@) {
                let k = choose|k: int| 0 <= k < r.symbols().len() && r.symbols()[k] == file@;
                assert(r@.contains_key(r.symbols()[k]));
            }
        }
        match r.get_mut(file.as_str()) {
            Some(list) => {
                list.push(idx);
            },
            None => {
                let mut list: Vec<NodeIndex> = Vec::new();
                list.push(idx);
                r.insert(file.clone(), list);
            },
        }
        proof {
            let taken = nodes@.take(i as int);
            let longer = nodes@.take(i + 1);
            assert(r@.contains_key(file@));
            assert(r@[file@]@ =~= nodes_in(*graph, taken, file@).push(idx));
            assert forall|other: Seq<char>| #[trigger] r@.contains_key(other) implies r@[other]@
                == nodes_in(*graph, longer, other) && all_known(*graph, r@[other]@) by {
                if other != file@ {
                    assert(before.contains_key(other));
                    assert(r@[other] == before[other]);
                }
            }
            assert forall|other: Seq<char>| !(#[trigger] r@.contains_key(other)) implies nodes_in(
                *graph,
                longer,
                other,
            ) == Seq::<NodeIndex>::empty() by {
                assert(!before.contains_key(other));
            }
        }
        i += 1;
    }
    assert(nodes@.take(i as int) =~= nodes@);
    r
}

/// Sorts nodes by their first lines.
fn sort_by_line(graph: &ContextGraph, nodes: &Vec<NodeIndex>) -> (r: Vec<NodeIndex>)
    requires
        all_known(*graph, nodes@),
    ensures
        r@ == by_line(*graph, nodes@),
        all_known(*graph, r@),
{
    let ghost lines = nodes@.map_values(|idx: NodeIndex| line_of(*graph, idx));
    let mut keys: Vec<u32> = Vec::new();
    let mut i: usize = 0;
    while i < nodes.len()
        invariant
            all_known(*graph, nodes@),
            lines == nodes@.map_values(|idx: NodeIndex| line_of(*graph, idx)),
            i <= nodes@.len(),
            keys@ == lines.take(i as int),
        decreases nodes@.len() - i,
    {
        keys.push(graph.node(nodes[i]).node_core().span.start_line);
        i += 1;
        assert(keys@ =~= lines.take(i as int));
    }
    assert(lines.take(i as int) =~= lines);
    let order = sort_positions(&keys);
    let ghost sorted = by_line(*graph, nodes@);
    let mut r: Vec<NodeIndex> = Vec::new();
    let mut j: usize = 0;
    while j < order.len()
        invariant
            all_known(*graph, nodes@),
            order@.len() == nodes@.len(),
            forall|k: int| 0 <= k < order@.len() ==> (#[trigger] order@[k]) < nodes@.len(),
            sorted == order@.map_values(|k: usize| nodes@[k as int]),
            j <= order@.len(),
            r@ == sorted.take(j as int),
            all_known(*graph, r@),
        decreases order@.len() - j,
    {
        assert(graph.has(nodes@[order@[j as int] as int]));
        r.push(nodes[order[j]]);
        j += 1;
        assert(r@ =~= sorted.take(j as int));
    }
    assert(sorted.take(j as int) =~= sorted);
    r
}

impl ContextEngine {
    /// Drops parameters, and nodes whose lines lie within those of an earlier node.
    pub fn filter_top_level_nodes(&self, sorted_nodes: Vec<NodeIndex>) -> (r: Vec<NodeIndex>)
        requires
            self.wf(),
            all_known(*self.graph, sorted_nodes@),
        ensures
            r@ == self.top_level(sorted_nodes@),
            all_known(*self.graph, r@),
    {
        let mut r: Vec<NodeIndex> = Vec::new();
        let mut i: usize = 0;
        assert(sorted_nodes@.take(0) =~= Seq::empty());
        while i < sorted_nodes.len()
            invariant
                self.wf(),
                all_known(*self.graph, sorted_nodes@),
                i <= sorted_nodes@.len(),
                r@ == self.top_level(sorted_nodes@.take(i as int)),
                all_known(*self.graph, r@),
            decreases sorted_nodes@.len() - i,
        {
            let idx = sorted_nodes[i];
            let node_core = self.graph.node(idx).node_core();
            proof {
                assert(sorted_nodes@.take(i + 1).drop_last() =~= sorted_nodes@.take(i as int));
                assert(sorted_nodes@.take(i + 1).last() == idx);
                assert(self.node_id_to_symbol@.map_values(
                    |symbol: String| symbol@,
                ).contains_key(node_core.id) == self.node_id_to_symbol@.contains_key(
                    node_core.id,
                ));
            }
            let is_sub_node: bool = match self.node_id_to_symbol.get(&node_core.id) {
                Some(symbol) => symbol_is_parameter(symbol.as_str()),
                None => symbol_is_parameter(""),
            };
            proof {
                reveal_strlit("");
                assert(""@ =~= Seq::<char>::empty());
            }
            let mut contained: bool = false;
            let mut j: usize = 0;
            while j < r.len()
                invariant
                    self.wf(),
                    self.graph.has(idx),
                    *node_core == self.graph.at(idx).node_core(),
                    all_known(*self.graph, r@),
                    j <= r@.len(),
                    contained == exists|k: int|
                        0 <= k < j && lies_within(*self.graph, #[trigger] r@[k], idx),
                decreases r@.len() - j,
            {
                let outer = r[j];
                let outer_core = self.graph.node(outer).node_core();
                if node_core.span.start_line >= outer_core.span.start_line
                    && node_core.span.end_line <= outer_core.span.end_line && idx.ix != outer.ix {
                    assert(lies_within(*self.graph, r@[j as int], idx));
                    contained = true;
                }
                j += 1;
            }
            if !contained && !is_sub_node {
                r.push(idx);
            }
            i += 1;
        }
        assert(sorted_nodes@.take(i as int) =~= sorted_nodes@);
        r
    }

    /// The nodes with some identifiers.
    fn nodes_with(&self, ids: &Vec<NodeId>, Ghost(footprint): Ghost<Footprint>) -> (r: Vec<
        NodeIndex,
    >)
        requires
            self.wf(),
            ids@ == self.footprint_ids(footprint),
            all_known(*self.graph, footprint.nodes()),
        ensures
            r@ == self.layer_nodes(footprint),
            all_known(*self.graph, r@),
    {
        let ghost all = self.layer_nodes(footprint);
        let mut r: Vec<NodeIndex> = Vec::new();
        let mut i: usize = 0;
        while i < ids.len()
            invariant
                self.wf(),
                ids@ == self.footprint_ids(footprint),
                all_known(*self.graph, footprint.nodes()),
                all == self.layer_nodes(footprint),
                i <= ids@.len(),
                r@ == all.take(i as int),
                all_known(*self.graph, r@),
            decreases ids@.len() - i,
        {
            proof {
                let idx = footprint.nodes()[i as int];
                assert(self.graph.has(idx));
                engine::lemma_index_by_id(self.graph.nodes(), idx.ix as int);
            }
            let idx = *self.node_id_to_index.get(&ids[i]).unwrap();
            r.push(idx);
            i += 1;
            assert(r@ =~= all.take(i as int));
        }
        assert(all.take(i as int) =~= all);
        r
    }

    /// The nodes of a footprint that are shown, by sorted files.
    fn shown_groups(&self, nodes: &Vec<NodeIndex>) -> (r: Vec<(String, Vec<NodeIndex>)>)
        requires
            self.wf(),
            all_known(*self.graph, nodes@),
        ensures
            grouped(
                *self,
                r@,
                nodes@,
                sort::sorted_texts(files_of(*self.graph, nodes@)),
            ),
    {
        let table = group_by_file(&self.graph, nodes);
        let files = table.sorted_symbols();
        let ghost all = text::texts(files@);
        let mut r: Vec<(String, Vec<NodeIndex>)> = Vec::new();
        let mut i: usize = 0;
        while i < files.len()
            invariant
                self.wf(),
                all_known(*self.graph, nodes@),
                table.wf(),
                forall|file: Seq<char>| #[trigger]
                    table@.contains_key(file) ==> table@[file]@ == nodes_in(
                        *self.graph,
                        nodes@,
                        file,
                    ) && all_known(*self.graph, table@[file]@),
                forall|k: int|
                    0 <= k < files@.len() ==> table@.contains_key((#[trigger] files@[k])@),
                all == text::texts(files@),
                i <= files@.len(),
                grouped(*self, r@, nodes@, all.take(i as int)),
            decreases files@.len() - i,
        {
            let members = table.get(files[i].as_str()).unwrap();
            let sorted = sort_by_line(&self.graph, members);
            let shown = self.filter_top_level_nodes(sorted);
            let ghost before = r@;
            let file = files[i].clone();
            r.push((file, shown));
            i += 1;
            proof {
                assert forall|k: int|
                    #![trigger r@[k]]
                    0 <= k < r@.len() implies {
                    &&& r@[k].0@ == all.take(i as int)[k]
                    &&& r@[k].1@ == self.shown_in(nodes@, all.take(i as int)[k])
                    &&& all_known(*self.graph, r@[k].1@)
                } by {
                    if k < i - 1 {
                        assert(r@[k] == before[k]);
                        assert(all.take(i - 1)[k] == all.take(i as int)[k]);
                    }
                }
            }
        }
        assert(all.take(i as int) =~= all);
        r
    }

    /// The footprint that a request for a context is about.
    pub open spec fn context_footprint(&self, req: ContextRequest) -> Footprint {
        self.footprint(
            req.policy,
            seq![self.graph.symbol_to_node@[req.symbol@]],
            req.max_tokens,
        )
    }

    /// Computes the footprint that a request for a context is about.
    fn compute_context(&self, req: &ContextRequest) -> (r: Result<CfResult, EngineError>)
        requires
            self.wf(),
        ensures
            match r {
                Ok(result) => {
                    &&& self.graph.symbol_to_node@.contains_key(req.symbol@)
                    &&& self.context_footprint(*req).representable()
                    &&& self.solver_for(req.policy).reports(
                        result,
                        self.context_footprint(*req),
                    )
                    &&& all_known(*self.graph, self.context_footprint(*req).nodes())
                },
                Err(EngineError::SymbolNotFound(symbol)) => symbol@ == req.symbol@
                    && !self.graph.symbol_to_node@.contains_key(req.symbol@),
                Err(EngineError::Unrepresentable) => self.graph.symbol_to_node@.contains_key(
                    req.symbol@,
                ) && !self.context_footprint(*req).representable(),
            },
    {
        let idx = match self.graph.get_node_by_symbol(req.symbol.as_str()) {
            Some(idx) => idx,
            None => {
                return Err(EngineError::SymbolNotFound(req.symbol.clone()));
            },
        };
        let solver = self.make_solver(req.policy);
        let mut starts: Vec<NodeIndex> = Vec::new();
        starts.push(idx);
        proof {
            assert(starts@ =~= seq![idx]);
            solver.lemma_footprint_nodes(starts@, req.max_tokens);
        }
        match solver.try_compute_cf(starts.as_slice(), req.max_tokens) {
            Some(result) => Ok(result),
            None => Err(EngineError::Unrepresentable),
        }
    }

    /// What is answered to the question which source lines a context needs.
    pub open spec fn answers_code_requests(
        &self,
        req: ContextRequest,
        r: Result<Vec<CodeRequest>, EngineError>,
    ) -> bool {
        match r {
            Ok(list) => {
                &&& self.graph.symbol_to_node@.contains_key(req.symbol@)
                &&& self.context_footprint(req).representable()
                &&& list@.map_values(|request: CodeRequest| request@) == if req.include_code {
                    self.shown_nodes(self.context_footprint(req)).map_values(
                        |idx: NodeIndex| request_for(*self.graph, idx),
                    )
                } else {
                    Seq::empty()
                }
            },
            Err(EngineError::SymbolNotFound(symbol)) => symbol@ == req.symbol@
                && !self.graph.symbol_to_node@.contains_key(req.symbol@),
            Err(EngineError::Unrepresentable) => self.graph.symbol_to_node@.contains_key(
                req.symbol@,
            ) && !self.context_footprint(req).representable(),
        }
    }

    /// The source lines that a context needs: those of the nodes that are shown, in
    /// their order. Where no code was asked for there are none.
    pub fn code_requests(&self, req: &ContextRequest) -> (r: Result<Vec<CodeRequest>, EngineError>)
        requires
            self.wf(),
        ensures
            self.answers_code_requests(*req, r),
    {
        let result = match self.compute_context(req) {
            Ok(result) => result,
            Err(error) => {
                return Err(error);
            },
        };
        let mut r: Vec<CodeRequest> = Vec::new();
        assert(r@.map_values(|request: CodeRequest| request@) =~= Seq::empty());
        if !req.include_code {
            return Ok(r);
        }
        let ghost footprint = self.context_footprint(*req);
        let nodes = self.nodes_with(&result.reachable_nodes_ordered, Ghost(footprint));
        let groups = self.shown_groups(&nodes);
        let ghost files = self.layer_files(footprint);
        let mut i: usize = 0;
        proof {
            assert(files.take(0) =~= Seq::empty());
            assert(self.shown(nodes@, files.take(0)).map_values(
                |idx: NodeIndex| request_for(*self.graph, idx),
            ) =~= Seq::empty());
        }
        while i < groups.len()
            invariant
                self.wf(),
                grouped(*self, groups@, nodes@, files),
                i <= groups@.len(),
                r@.map_values(|request: CodeRequest| request@) == self.shown(
                    nodes@,
                    files.take(i as int),
                ).map_values(|idx: NodeIndex| request_for(*self.graph, idx)),
            decreases groups@.len() - i,
        {
            let members = &groups[i].1;
            let ghost before = self.shown(nodes@, files.take(i as int));
            let mut j: usize = 0;
            assert(before + members@.take(0) =~= before);
            while j < members.len()
                invariant
                    self.wf(),
                    all_known(*self.graph, members@),
                    j <= members@.len(),
                    r@.map_values(|request: CodeRequest| request@) == (before + members@.take(
                        j as int,
                    )).map_values(|idx: NodeIndex| request_for(*self.graph, idx)),
                decreases members@.len() - j,
            {
                let node_core = self.graph.node(members[j]).node_core();
                let request = CodeRequest {
                    file_path: node_core.file_path.clone(),
                    start_line: node_core.span.start_line,
                    end_line: node_core.span.end_line,
                };
                let ghost had = r@.map_values(|request: CodeRequest| request@);
                r.push(request);
                j += 1;
                proof {
                    assert(r@.map_values(|request: CodeRequest| request@) =~= had.push(request@));
                    assert(before + members@.take(j as int) =~= (before + members@.take(
                        j - 1,
                    )).push(members@[j - 1]));
                    assert((before + members@.take(j as int)).map_values(
                        |idx: NodeIndex| request_for(*self.graph, idx),
                    ) =~= had.push(request_for(*self.graph, members@[j - 1])));
                }
            }
            proof {
                assert(members@.take(j as int) =~= members@);
                assert(files.take(i + 1).drop_last() =~= files.take(i as int));
            }
            i += 1;
        }
        assert(files.take(i as int) =~= files);
        Ok(r)
    }

    /// What is shown under fewer files comes first.
    proof fn lemma_shown_prefix(&self, nodes: Seq<NodeIndex>, files: Seq<Seq<char>>, n: int)
        requires
            0 <= n <= files.len(),
        ensures
            self.shown(nodes, files.take(n)).is_prefix_of(self.shown(nodes, files)),
        decreases files.len(),
    {
        if n == files.len() {
            assert(files.take(n) =~= files);
        } else {
            assert(files.drop_last().take(n) =~= files.take(n));
            self.lemma_shown_prefix(nodes, files.drop_last(), n);
        }
    }

    /// Makes source lines with their numbers.
    fn number_lines(start_line: u32, lines: &Vec<String>) -> (r: Vec<CodeLine>)
        requires
            start_line + lines@.len() <= u32::MAX,
        ensures
            dto::code_views(r@) == numbered(start_line, text::texts(lines@)),
    {
        let ghost all = numbered(start_line, text::texts(lines@));
        let mut r: Vec<CodeLine> = Vec::new();
        let mut i: usize = 0;
        assert(dto::code_views(r@) =~= all.take(0));
        while i < lines.len()
            invariant
                start_line + lines@.len() <= u32::MAX,
                all == numbered(start_line, text::texts(lines@)),
                i <= lines@.len(),
                dto::code_views(r@) == all.take(i as int),
            decreases lines@.len() - i,
        {
            let line = CodeLine {
                line_number: start_line + 1 + i as u32,
                text: lines[i].clone(),
            };
            let ghost before = dto::code_views(r@);
            r.push(line);
            i += 1;
            assert(dto::code_views(r@) =~= before.push(line@));
            assert(all.take(i as int) =~= before.push(all[i - 1]));
        }
        assert(all.take(i as int) =~= all);
        r
    }

    /// Shows nodes. There is no result where a line number is too large.
    fn make_context_nodes(
        &self,
        members: &Vec<NodeIndex>,
        code: Option<&Vec<Vec<String>>>,
        offset: usize,
    ) -> (r: Option<Vec<ContextNode>>)
        requires
            self.wf(),
            all_known(*self.graph, members@),
            code matches Some(list) ==> offset + members@.len() <= list@.len(),
        ensures
            ({
                let lines = match code {
                    Some(list) => Some(all_texts(list@)),
                    None => None,
                };
                match r {
                    Some(nodes) => self.nodes_fit(members@, lines, offset as int)
                        && nodes@.map_values(|node: ContextNode| node@) == self.context_nodes(
                        members@,
                        lines,
                        offset as int,
                    ),
                    None => !self.nodes_fit(members@, lines, offset as int),
                }
            }),
    {
        let ghost lines = match code {
            Some(list) => Some(all_texts(list@)),
            None => None,
        };
        let ghost all = self.context_nodes(members@, lines, offset as int);
        let mut r: Vec<ContextNode> = Vec::new();
        let mut i: usize = 0;
        assert(r@.map_values(|node: ContextNode| node@) =~= all.take(0));
        while i < members.len()
            invariant
                self.wf(),
                all_known(*self.graph, members@),
                code matches Some(list) ==> offset + members@.len() <= list@.len(),
                lines == match code {
                    Some(list) => Some(all_texts(list@)),
                    None => None,
                },
                all == self.context_nodes(members@, lines, offset as int),
                i <= members@.len(),
                self.nodes_fit(members@.take(i as int), lines, offset as int),
                r@.map_values(|node: ContextNode| node@) == all.take(i as int),
            decreases members@.len() - i,
        {
            let idx = members[i];
            let node = self.graph.node(idx);
            let node_core = node.node_core();
            let mut fits: bool = node_core.span.start_line < u32::MAX && node_core.span.end_line
                < u32::MAX;
            let ghost own = match lines {
                Some(list) => Some(list[offset + i]),
                None => None,
            };
            match code {
                Some(list) => {
                    assert(list.len() == list@.len());
                    assert(all_texts(list@)[offset + i] == text::texts(list@[offset + i]@));
                    let room: u32 = u32::MAX - node_core.span.start_line;
                    if list[offset + i].len() > room as usize {
                        fits = false;
                    }
                },
                None => {},
            }
            assert(fits == self.node_fits(idx, own));
            if !fits {
                assert(!self.node_fits(members@[i as int], own));
                return None;
            }
            let numbered_lines = match code {
                Some(list) => Some(
                    Self::number_lines(node_core.span.start_line, &list[offset + i]),
                ),
                None => None,
            };
            assert(self.node_id_to_symbol@.map_values(|symbol: String| symbol@).contains_key(
                node_core.id,
            ) == self.node_id_to_symbol@.contains_key(node_core.id));
            let symbol = match self.node_id_to_symbol.get(&node_core.id) {
                Some(symbol) => symbol.clone(),
                None => node_core.name.clone(),
            };
            let shown = ContextNode {
                id: node_core.id,
                symbol,
                node_type: String::from_str(node_type_str(node)),
                context_size: node_core.context_size,
                span: span_dto(&node_core.span),
                doc_score: node_core.doc_score,
                is_external: node_core.is_external,
                code: numbered_lines,
            };
            let ghost before = r@.map_values(|node: ContextNode| node@);
            r.push(shown);
            proof {
                assert(r@.map_values(|node: ContextNode| node@) =~= before.push(shown@));
                assert(all.take(i + 1) =~= before.push(all[i as int]));
                assert forall|k: int| 0 <= k < i + 1 implies self.node_fits(
                    #[trigger] members@.take(i + 1)[k],
                    match lines {
                        Some(list) => Some(list[offset + k]),
                        None => None,
                    },
                ) by {
                    if k < i {
                        assert(members@.take(i + 1)[k] == members@.take(i as int)[k]);
                    }
                }
            }
            i += 1;
        }
        proof {
            assert(all.take(i as int) =~= all);
            assert(members@.take(i as int) =~= members@);
        }
        Some(r)
    }

    /// Shows the nodes of groups. There is no result where a line number is too large.
    fn make_context_files(
        &self,
        groups: &Vec<(String, Vec<NodeIndex>)>,
        code: Option<&Vec<Vec<String>>>,
        Ghost(nodes): Ghost<Seq<NodeIndex>>,
        Ghost(files): Ghost<Seq<Seq<char>>>,
    ) -> (r: Option<Vec<ContextFile>>)
        requires
            self.wf(),
            grouped(*self, groups@, nodes, files),
            code matches Some(list) ==> list@.len() == self.shown(nodes, files).len(),
        ensures
            ({
                let lines = match code {
                    Some(list) => Some(all_texts(list@)),
                    None => None,
                };
                match r {
                    Some(list) => self.nodes_fit(self.shown(nodes, files), lines, 0)
                        && list@.map_values(|file: ContextFile| file@) == self.context_files(
                        nodes,
                        files,
                        lines,
                    ),
                    None => !self.nodes_fit(self.shown(nodes, files), lines, 0),
                }
            }),
    {
        let ghost lines = match code {
            Some(list) => Some(all_texts(list@)),
            None => None,
        };
        let mut r: Vec<ContextFile> = Vec::new();
        let mut offset: usize = 0;
        let mut i: usize = 0;
        proof {
            assert(files.take(0) =~= Seq::empty());
            assert(r@.map_values(|file: ContextFile| file@) =~= Seq::empty());
        }
        while i < groups.len()
            invariant
                self.wf(),
                grouped(*self, groups@, nodes, files),
                code matches Some(list) ==> list@.len() == self.shown(nodes, files).len(),
                lines == match code {
                    Some(list) => Some(all_texts(list@)),
                    None => None,
                },
                i <= groups@.len(),
                code is Some ==> offset == self.shown(nodes, files.take(i as int)).len(),
                self.nodes_fit(self.shown(nodes, files.take(i as int)), lines, 0),
                r@.map_values(|file: ContextFile| file@) == self.context_files(
                    nodes,
                    files.take(i as int),
                    lines,
                ),
            decreases groups@.len() - i,
        {
            let members = &groups[i].1;
            let ghost before = self.shown(nodes, files.take(i as int));
            let ghost after = self.shown(nodes, files.take(i + 1));
            proof {
                assert(files.take(i + 1).drop_last() =~= files.take(i as int));
                assert(files.take(i + 1).last() == files[i as int]);
                assert(after == before + members@);
                self.lemma_shown_prefix(nodes, files, i + 1);
            }
            let shown = match self.make_context_nodes(members, code, offset) {
                Some(shown) => shown,
                None => {
                    proof {
                        let k = choose|k: int|
                            0 <= k < members@.len() && !self.node_fits(
                                #[trigger] members@[k],
                                match lines {
                                    Some(list) => Some(list[offset + k]),
                                    None => None,
                                },
                            );
                        assert(after[before.len() + k] == members@[k]);
                        assert(self.shown(nodes, files)[before.len() + k] == members@[k]);
                    }
                    return None;
                },
            };
            let ghost had = r@.map_values(|file: ContextFile| file@);
            let file = ContextFile { file_path: groups[i].0.clone(), nodes: shown };
            r.push(file);
            proof {
                assert(r@.map_values(|file: ContextFile| file@) =~= had.push(file@));
                assert(self.context_nodes(members@, lines, offset as int)
                    =~= self.context_nodes(members@, lines, before.len() as int));
                assert forall|k: int| 0 <= k < after.len() implies self.node_fits(
                    #[trigger] after[k],
                    match lines {
                        Some(list) => Some(list[0 + k]),
                        None => None,
                    },
                ) by {
                    if k < before.len() {
                        assert(after[k] == before[k]);
                    } else {
                        let j = k - before.len();
                        assert(after[k] == members@[j]);
                        assert(self.node_fits(
                            members@[j],
                            match lines {
                                Some(list) => Some(list[offset + j]),
                                None => None,
                            },
                        ));
                    }
                }
            }
            if let Some(list) = code {
                assert(list.len() == list@.len());
                offset = offset + members.len();
            }
            i += 1;
        }
        assert(files.take(i as int) =~= files);
        Some(r)
    }

    /// Shows the steps of a traversal.
    fn make_steps(&self, steps: &Vec<TraversalStep>, Ghost(ids): Ghost<Seq<NodeId>>) -> (r: Vec<
        TraversalStepDto,
    >)
        requires
            self.wf(),
            steps@.map_values(|step: TraversalStep| step.node_id) == ids,
            self.all_reportable(ids),
        ensures
            r@.map_values(|step: TraversalStepDto| step@) == steps@.map_values(
                |step: TraversalStep| self.step_view(step),
            ),
    {
        let ghost all = steps@.map_values(|step: TraversalStep| self.step_view(step));
        let mut r: Vec<TraversalStepDto> = Vec::new();
        let mut i: usize = 0;
        assert(r@.map_values(|step: TraversalStepDto| step@) =~= all.take(0));
        while i < steps.len()
            invariant
                self.wf(),
                steps@.map_values(|step: TraversalStep| step.node_id) == ids,
                self.all_reportable(ids),
                all == steps@.map_values(|step: TraversalStep| self.step_view(step)),
                i <= steps@.len(),
                r@.map_values(|step: TraversalStepDto| step@) == all.take(i as int),
            decreases steps@.len() - i,
        {
            let step = &steps[i];
            assert(steps@.map_values(|step: TraversalStep| step.node_id)[i as int]
                == step.node_id);
            assert(self.reportable(ids[i as int]));
            let node = self.reachable_node(step.node_id);
            let idx = *self.node_id_to_index.get(&step.node_id).unwrap();
            let is_signature_complete: Option<bool> = match self.graph.node(idx) {
                Node::Function(f) => Some(f.is_signature_complete()),
                Node::Variable(_) => None,
            };
            let edge_kind = match &step.incoming_edge_kind {
                Some(kind) => Some(String::from_str(edge_kind_display(kind))),
                None => None,
            };
            let decision = match &step.decision {
                Some(decision) => Some(String::from_str(decision_display(decision))),
                None => None,
            };
            let shown = TraversalStepDto { node, edge_kind, decision, is_signature_complete };
            let ghost before = r@.map_values(|step: TraversalStepDto| step@);
            r.push(shown);
            proof {
                assert(r@.map_values(|step: TraversalStepDto| step@) =~= before.push(shown@));
                assert(all.take(i + 1) =~= before.push(all[i as int]));
            }
            i += 1;
        }
        assert(all.take(i as int) =~= all);
        r
    }

    /// The source lines that are shown: none where no code was asked for.
    pub open spec fn shown_code(req: ContextRequest, code: Seq<Vec<String>>) -> Option<
        Seq<Seq<Seq<char>>>,
    > {
        if req.include_code {
            Some(all_texts(code))
        } else {
            None
        }
    }

    /// Whether a context can be reported: sizes fit, and so do the line numbers of
    /// what is shown.
    pub open spec fn context_reportable(
        &self,
        req: ContextRequest,
        code: Seq<Vec<String>>,
    ) -> bool {
        let footprint = self.context_footprint(req);
        &&& footprint.representable()
        &&& self.nodes_fit(self.shown_nodes(footprint), Self::shown_code(req, code), 0)
        &&& req.show_traversal ==> self.all_reportable(self.footprint_ids(footprint))
    }

    /// What is answered to a request for a context.
    pub open spec fn answers_context(
        &self,
        req: ContextRequest,
        code: Seq<Vec<String>>,
        r: Result<ContextResponse, EngineError>,
    ) -> bool {
        let footprint = self.context_footprint(req);
        let ids = self.footprint_ids(footprint);
        match r {
            Ok(response) => {
                &&& self.graph.symbol_to_node@.contains_key(req.symbol@)
                &&& self.context_reportable(req, code)
                &&& response.symbol == req.symbol
                &&& context_summary(response) == self.summary(req.policy, footprint)
                &&& response.layers@.len() == if ids.len() == 0 {
                    0int
                } else {
                    1
                }
                &&& ids.len() > 0 ==> response.layers@[0].depth == 0
                    && response.layers@[0].files@.map_values(|file: ContextFile| file@)
                    == self.context_files(
                    self.layer_nodes(footprint),
                    self.layer_files(footprint),
                    Self::shown_code(req, code),
                )
                &&& match response.traversal_steps {
                    Some(steps) => req.show_traversal && steps@.map_values(
                        |step: TraversalStepDto| step@,
                    ) == solver::steps_of(*self.graph, footprint).map_values(
                        |step: TraversalStep| self.step_view(step),
                    ),
                    None => !req.show_traversal,
                }
            },
            Err(EngineError::SymbolNotFound(symbol)) => symbol@ == req.symbol@
                && !self.graph.symbol_to_node@.contains_key(req.symbol@),
            Err(EngineError::Unrepresentable) => self.graph.symbol_to_node@.contains_key(
                req.symbol@,
            ) && !self.context_reportable(req, code),
        }
    }

    /// The context of a symbol, given the source lines that it needs, in the order of
    /// [`Self::code_requests`].
    pub fn context(&self, req: ContextRequest, code: &Vec<Vec<String>>) -> (r: Result<
        ContextResponse,
        EngineError,
    >)
        requires
            self.wf(),
            req.include_code && self.graph.symbol_to_node@.contains_key(req.symbol@)
                && self.context_footprint(req).representable() ==> code@.len() == self.shown_nodes(
                self.context_footprint(req),
            ).len(),
        ensures
            self.answers_context(req, code@, r),
    {
        let result = match self.compute_context(&req) {
            Ok(result) => result,
            Err(error) => {
                return Err(error);
            },
        };
        let ghost footprint = self.context_footprint(req);
        let ghost ids = self.footprint_ids(footprint);
        let nodes = self.nodes_with(&result.reachable_nodes_by_layer[0], Ghost(footprint));
        let groups = self.shown_groups(&nodes);
        let ghost files_shown = self.layer_files(footprint);
        let lines: Option<&Vec<Vec<String>>> = if req.include_code {
            Some(code)
        } else {
            None
        };
        let files = match self.make_context_files(
            &groups,
            lines,
            Ghost(nodes@),
            Ghost(files_shown),
        ) {
            Some(files) => files,
            None => {
                return Err(EngineError::Unrepresentable);
            },
        };
        let mut layers: Vec<ContextLayer> = Vec::new();
        if nodes.len() > 0 {
            layers.push(ContextLayer { depth: 0, files });
        }
        let traversal_steps = if req.show_traversal {
            if !self.check_reportable(&result.reachable_nodes_ordered) {
                return Err(EngineError::Unrepresentable);
            }
            assert(result.traversal_steps@.map_values(|step: TraversalStep| step.node_id) =~= ids);
            Some(self.make_steps(&result.traversal_steps, Ghost(ids)))
        } else {
            None
        };
        let boundary_stops = boundary_stop_dtos(&result.boundary_stops);
        let response = ContextResponse {
            symbol: req.symbol,
            total_context_size: result.total_context_size,
            cf_total: result.cf_total,
            cf_out: result.cf_out,
            cf_in: result.cf_in,
            cf_overlap: result.cf_overlap,
            out_fragments: result.out_fragments,
            in_fragments: result.in_fragments,
            truncated: result.truncated,
            unresolved_state_count: result.unresolved_states.len(),
            boundary_stop_count: result.boundary_stops.len(),
            boundary_stops,
            boundary_policy_id: result.boundary_policy_id,
            size_function_id: result.size_function_id,
            measurement_scope_id: result.measurement_scope_id,
            graph_total_references: result.graph_total_references,
            graph_unresolved_calls: result.graph_unresolved_calls,
            graph_total_functions: result.graph_total_functions,
            graph_functions_with_explicit_fragments: result.graph_functions_with_explicit_fragments,
            reachable_node_count: result.reachable_set.len(),
            layers,
            traversal_steps,
        };
        assert(context_summary(response) =~= self.summary(req.policy, footprint));
        Ok(response)
    }
}

} // verus!
