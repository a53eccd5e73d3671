//! What a context shows, said over its response.

use crate::app::anchors;
use crate::app::context;
use crate::app::context::CodeRequest;
use crate::app::dto;
use crate::app::dto::{
    ComputeRequest, ComputeResponse, ContextFile, ContextNode, ContextRequest, ContextResponse,
    ReachableNode, TraversalStepDto,
};
use crate::app::engine;
use crate::app::engine::ContextEngine;
use crate::app::footprints;
use crate::domain::graph::{ContextGraph, NodeIndex};
use crate::domain::node::Node;
use crate::domain::policy;
use crate::domain::solver;
use crate::domain::sort;
use crate::domain::text;
use vstd::prelude::*;

verus! {

/// How many nodes the first so many files of a context show.
pub open spec fn nodes_before(files: Seq<ContextFile>, f: int) -> nat
    decreases f,
{
    if f <= 0 {
        0
    } else {
        nodes_before(files, f - 1) + files[f - 1].nodes@.len()
    }
}

impl ContextEngine {
    /// The files of a context, one by one.
    proof fn lemma_context_files(
        &self,
        nodes: Seq<NodeIndex>,
        files: Seq<Seq<char>>,
        code: Option<Seq<Seq<Seq<char>>>>,
        f: int,
    )
        requires
            0 <= f < files.len(),
        ensures
            ({
                let r = self.context_files(nodes, files, code);
                let before = self.shown(nodes, files.take(f));
                let members = self.shown_in(nodes, files[f]);
                &&& r.len() == files.len()
                &&& r[f].file_path == files[f]
                &&& r[f].nodes == self.context_nodes(members, code, before.len() as int)
                &&& (before + members).is_prefix_of(self.shown(nodes, files))
            }),
        decreases files.len(),
    {
        let rest = files.drop_last();
        self.lemma_context_count(nodes, rest, code);
        let before = self.shown(nodes, files.take(f));
        let members = self.shown_in(nodes, files[f]);
        if f == files.len() - 1 {
            assert(files.take(f) =~= rest);
            assert(self.shown(nodes, files) =~= before + members);
        } else {
            self.lemma_context_files(nodes, rest, code, f);
            assert(rest.take(f) =~= files.take(f));
            assert(rest[f] == files[f]);
            let part = before + members;
            let whole = self.shown(nodes, files);
            assert(part.is_prefix_of(self.shown(nodes, rest)));
            assert(whole == self.shown(nodes, rest) + self.shown_in(nodes, files.last()));
            assert forall|i: int| 0 <= i < part.len() implies part[i] == whole[i] by {
                assert(self.shown(nodes, rest).subrange(0, part.len() as int)[i] == part[i]);
            }
            assert(part =~= whole.subrange(0, part.len() as int));
        }
    }

    /// Where a node that is shown comes from: its place in the graph, and its source
    /// lines among those that were given.
    proof fn lemma_shown_node(
        &self,
        req: ContextRequest,
        code: Seq<Vec<String>>,
        response: ContextResponse,
        f: int,
        k: int,
    ) -> (idx: NodeIndex)
        requires
            self.wf(),
            self.answers_context(req, code, Ok(response)),
            req.include_code ==> code.len() == self.shown_nodes(
                self.context_footprint(req),
            ).len(),
            response.layers@.len() > 0,
            0 <= f < response.layers@[0].files@.len(),
            0 <= k < response.layers@[0].files@[f].nodes@.len(),
        ensures
            ({
                let files = response.layers@[0].files@;
                let shown = self.shown_nodes(self.context_footprint(req));
                let at = nodes_before(files, f) + k;
                &&& at < shown.len()
                &&& shown[at] == idx
                &&& files[f].file_path@ == self.layer_files(self.context_footprint(req))[f]
                &&& self.shown_in(
                    self.layer_nodes(self.context_footprint(req)),
                    files[f].file_path@,
                ).len() == files[f].nodes@.len()
                &&& self.shown_in(
                    self.layer_nodes(self.context_footprint(req)),
                    files[f].file_path@,
                )[k] == idx
                &&& files[f].nodes@[k]@ == self.context_node(
                    idx,
                    if req.include_code {
                        Some(text::texts(code[at]@))
                    } else {
                        None
                    },
                )
                &&& self.node_fits(
                    idx,
                    if req.include_code {
                        Some(text::texts(code[at]@))
                    } else {
                        None
                    },
                )
            }),
    {
        let footprint = self.context_footprint(req);
        let nodes = self.layer_nodes(footprint);
        let paths = self.layer_files(footprint);
        let lines = Self::shown_code(req, code);
        let files = response.layers@[0].files@;
        let views = files.map_values(|file: ContextFile| file@);
        assert(views == self.context_files(nodes, paths, lines));
        self.lemma_context_count(nodes, paths, lines);
        assert(views.len() == files.len());
        self.lemma_context_files(nodes, paths, lines, f);
        self.lemma_nodes_before(nodes, paths, lines, files, f);
        assert(views[f] == files[f]@);
        let members = self.shown_in(nodes, paths[f]);
        let before = self.shown(nodes, paths.take(f));
        let shown = self.shown_nodes(footprint);
        let listed = files[f].nodes@.map_values(|node: ContextNode| node@);
        assert(listed == self.context_nodes(members, lines, before.len() as int));
        assert(listed.len() == files[f].nodes@.len());
        assert(listed[k] == files[f].nodes@[k]@);
        let at = nodes_before(files, f) + k;
        assert((before + members)[at as int] == members[k]);
        assert(shown[at as int] == members[k]);
        assert(req.include_code ==> context::all_texts(code)[at as int] == text::texts(
            code[at as int]@,
        ));
        assert(self.node_fits(
            shown[at as int],
            match lines {
                Some(list) => Some(list[0 + at as int]),
                None => None,
            },
        ));
        members[k]
    }

    proof fn lemma_context_count(
        &self,
        nodes: Seq<NodeIndex>,
        files: Seq<Seq<char>>,
        code: Option<Seq<Seq<Seq<char>>>>,
    )
        ensures
            self.context_files(nodes, files, code).len() == files.len(),
        decreases files.len(),
    {
        if files.len() > 0 {
            self.lemma_context_count(nodes, files.drop_last(), code);
        }
    }

    proof fn lemma_nodes_before(
        &self,
        nodes: Seq<NodeIndex>,
        paths: Seq<Seq<char>>,
        code: Option<Seq<Seq<Seq<char>>>>,
        files: Seq<ContextFile>,
        f: int,
    )
        requires
            0 <= f <= paths.len(),
            files.map_values(|file: ContextFile| file@) == self.context_files(nodes, paths, code),
        ensures
            nodes_before(files, f) == self.shown(nodes, paths.take(f)).len(),
        decreases f,
    {
        if f > 0 {
            self.lemma_nodes_before(nodes, paths, code, files, f - 1);
            self.lemma_context_files(nodes, paths, code, f - 1);
            let views = files.map_values(|file: ContextFile| file@);
            assert(views.len() == files.len());
            assert(views[f - 1] == files[f - 1]@);
            let listed = files[f - 1].nodes@.map_values(|node: ContextNode| node@);
            assert(listed.len() == files[f - 1].nodes@.len());
            assert(paths.take(f).drop_last() =~= paths.take(f - 1));
            assert(paths.take(f).last() == paths[f - 1]);
        } else {
            assert(paths.take(0) =~= Seq::empty());
        }
    }

    /// Each node that a context shows with its code has its lines numbered as in its file:
    /// the first has the number of the first line of the node, counted from one, and each
    /// further line the number of the line before it plus one. Code is shown exactly if it
    /// was asked for.
    pub proof fn law_code_lines_are_numbered_from_the_span(
        &self,
        req: ContextRequest,
        code: Seq<Vec<String>>,
        response: ContextResponse,
        f: int,
        k: int,
    )
        requires
            self.wf(),
            self.answers_context(req, code, Ok(response)),
            req.include_code ==> code.len() == self.shown_nodes(
                self.context_footprint(req),
            ).len(),
            response.layers@.len() > 0,
            0 <= f < response.layers@[0].files@.len(),
            0 <= k < response.layers@[0].files@[f].nodes@.len(),
        ensures
            ({
                let node = response.layers@[0].files@[f].nodes@[k];
                &&& node.code is Some <==> req.include_code
                &&& node.code matches Some(lines) ==> {
                    &&& lines@.len() > 0 ==> lines@[0].line_number == node.span.start_line_1based
                    &&& forall|i: int|
                        #![trigger lines@[i]]
                        0 < i < lines@.len() ==> lines@[i].line_number == lines@[i - 1].line_number
                            + 1
                }
            }),
    {
        let idx = self.lemma_shown_node(req, code, response, f, k);
        let files = response.layers@[0].files@;
        let node = files[f].nodes@[k];
        if req.include_code {
            let given = text::texts(code[nodes_before(files, f) + k]@);
            let start = self.graph.at(idx).node_core().span.start_line;
            let lines = node.code->0@;
            assert(dto::code_views(lines) == context::numbered(start, given));
            assert(dto::code_views(lines).len() == lines.len());
            assert forall|i: int| #![trigger lines[i]] 0 <= i < lines.len() implies
                lines[i].line_number == node.span.start_line_1based + i by {
                assert(dto::code_views(lines)[i] == lines[i]@);
            }
        }
    }

    /// A node that is shown with its code has the lines that were given for it. Lines are
    /// given in the order in which they were asked for; and they were asked for from the
    /// file of the node, from its first line to its last.
    pub proof fn law_code_is_what_was_asked_for(
        &self,
        req: ContextRequest,
        requests: Vec<CodeRequest>,
        code: Seq<Vec<String>>,
        response: ContextResponse,
        f: int,
        k: int,
    )
        requires
            self.wf(),
            req.include_code,
            self.answers_code_requests(req, Ok(requests)),
            code.len() == requests@.len(),
            self.answers_context(req, code, Ok(response)),
            response.layers@.len() > 0,
            0 <= f < response.layers@[0].files@.len(),
            0 <= k < response.layers@[0].files@[f].nodes@.len(),
        ensures
            ({
                let files = response.layers@[0].files@;
                let at = nodes_before(files, f) + k;
                let node = files[f].nodes@[k];
                &&& at < requests@.len()
                &&& requests@[at].file_path@ == files[f].file_path@
                &&& requests@[at].start_line == node.span.start_line
                &&& requests@[at].end_line == node.span.end_line
                &&& node.code is Some
                &&& node.code->0@.len() == code[at]@.len()
                &&& forall|i: int|
                    #![trigger node.code->0@[i]]
                    0 <= i < code[at]@.len() ==> node.code->0@[i].text@ == code[at]@[i]@
            }),
    {
        let files = response.layers@[0].files@;
        let footprint = self.context_footprint(req);
        let at = nodes_before(files, f) + k;
        let node = files[f].nodes@[k];
        let asked = requests@.map_values(|request: CodeRequest| request@);
        assert(asked.len() == requests@.len());
        let idx = self.lemma_shown_node(req, code, response, f, k);
        assert(asked[at as int] == context::request_for(
            self.context_graph(),
            self.shown_nodes(footprint)[at as int],
        ));
        assert(asked[at as int] == requests@[at as int]@);
        self.lemma_layer(req);
        self.lemma_shown_in(self.layer_nodes(footprint), files[f].file_path@, k);
        let given = text::texts(code[at as int]@);
        let lines = node.code->0@;
        let start = self.graph.at(idx).node_core().span.start_line;
        assert(dto::code_views(lines) == context::numbered(start, given));
        assert(dto::code_views(lines).len() == lines.len());
        assert forall|i: int| #![trigger lines[i]] 0 <= i < code[at as int]@.len() implies
            lines[i].text@ == code[at as int]@[i]@ by {
            assert(dto::code_views(lines)[i] == lines[i]@);
            assert(given[i] == code[at as int]@[i]@);
        }
    }

    /// The nodes of a footprint are different nodes of the graph.
    proof fn lemma_layer(&self, req: ContextRequest)
        requires
            self.wf(),
            self.graph.symbol_to_node@.contains_key(req.symbol@),
        ensures
            self.layer_nodes(self.context_footprint(req)).len() <= self.graph.nodes().len(),
            self.layer_nodes(self.context_footprint(req)).len() <= u32::MAX,
            forall|k: int|
                #![trigger self.layer_nodes(self.context_footprint(req))[k]]
                0 <= k < self.layer_nodes(self.context_footprint(req)).len() ==> self.graph.has(
                    self.layer_nodes(self.context_footprint(req))[k],
                ),
    {
        let footprint = self.context_footprint(req);
        let starts = seq![self.graph.symbol_to_node@[req.symbol@]];
        let solver = self.solver_for(req.policy);
        let nodes = footprint.nodes();
        assert(forall|i: int| 0 <= i < starts.len() ==> self.graph.has(#[trigger] starts[i]));
        solver.lemma_footprint_nodes(starts, req.max_tokens);
        solver.out_walk(req.max_tokens).law_nodes_are_visited(starts);
        lemma_merged_once(footprint.out.nodes, footprint.incoming.nodes);
        policy::lemma_distinct_below(nodes, self.graph.nodes().len());
        let layer = self.layer_nodes(footprint);
        assert forall|k: int| #![trigger layer[k]] 0 <= k < layer.len() implies self.graph.has(
            layer[k],
        ) by {
            assert(self.graph.has(nodes[k]));
            engine::lemma_index_by_id(self.graph.nodes(), nodes[k].ix as int);
        }
    }

    /// The files of a context come in strict lexicographic order.
    pub proof fn law_files_are_in_order(
        &self,
        req: ContextRequest,
        code: Seq<Vec<String>>,
        response: ContextResponse,
        f: int,
        g: int,
    )
        requires
            self.wf(),
            self.answers_context(req, code, Ok(response)),
            response.layers@.len() > 0,
            0 <= f < g < response.layers@[0].files@.len(),
        ensures
            text::text_before(
                response.layers@[0].files@[f].file_path@,
                response.layers@[0].files@[g].file_path@,
            ),
    {
        let footprint = self.context_footprint(req);
        let nodes = self.layer_nodes(footprint);
        let paths = self.layer_files(footprint);
        let lines = Self::shown_code(req, code);
        let files = response.layers@[0].files@;
        let views = files.map_values(|file: ContextFile| file@);
        assert(views == self.context_files(nodes, paths, lines));
        self.lemma_context_count(nodes, paths, lines);
        assert(views.len() == files.len());
        self.lemma_context_files(nodes, paths, lines, f);
        self.lemma_context_files(nodes, paths, lines, g);
        assert(views[f] == files[f]@ && views[g] == files[g]@);
        self.lemma_layer(req);
        lemma_files_of(self.context_graph(), nodes);
        sort::law_sorting_different_texts(context::files_of(self.context_graph(), nodes));
    }

    /// The nodes that are shown under a file come in the order of their first lines. The
    /// lines of none of them lie within those of one that comes before it.
    pub proof fn law_shown_nodes_do_not_lie_in_one_another(
        &self,
        req: ContextRequest,
        code: Seq<Vec<String>>,
        response: ContextResponse,
        f: int,
        k: int,
        j: int,
    )
        requires
            self.wf(),
            self.answers_context(req, code, Ok(response)),
            req.include_code ==> code.len() == self.shown_nodes(
                self.context_footprint(req),
            ).len(),
            response.layers@.len() > 0,
            0 <= f < response.layers@[0].files@.len(),
            0 <= k < j < response.layers@[0].files@[f].nodes@.len(),
        ensures
            ({
                let outer = response.layers@[0].files@[f].nodes@[k];
                let node = response.layers@[0].files@[f].nodes@[j];
                &&& outer.span.start_line <= node.span.start_line
                &&& outer.id != node.id ==> node.span.end_line > outer.span.end_line
            }),
    {
        let footprint = self.context_footprint(req);
        let nodes = self.layer_nodes(footprint);
        let file = response.layers@[0].files@[f].file_path@;
        let graph = self.context_graph();
        let members = context::nodes_in(graph, nodes, file);
        let sorted = context::by_line(graph, members);
        let shown = self.shown_in(nodes, file);
        let a = self.lemma_shown_node(req, code, response, f, k);
        let b = self.lemma_shown_node(req, code, response, f, j);
        self.lemma_layer(req);
        lemma_nodes_in(graph, nodes, file);
        lemma_by_line(graph, members);
        assert(by_start(graph, sorted));
        self.lemma_top_level(sorted);
        assert(shown[k] == a && shown[j] == b);
        assert(shown.contains(b));
        assert(!context::lies_within(graph, shown[k], shown[j]));
    }

    /// Each node that is shown under a file is one of the graph and of that file, and
    /// shows what the graph says of it; lines are given counted from zero and from one.
    /// None is known as a parameter: by a symbol that has "().(" in it and ends in ")".
    pub proof fn law_shown_nodes_are_of_the_graph(
        &self,
        req: ContextRequest,
        code: Seq<Vec<String>>,
        response: ContextResponse,
        f: int,
        k: int,
    )
        requires
            self.wf(),
            self.answers_context(req, code, Ok(response)),
            req.include_code ==> code.len() == self.shown_nodes(
                self.context_footprint(req),
            ).len(),
            response.layers@.len() > 0,
            0 <= f < response.layers@[0].files@.len(),
            0 <= k < response.layers@[0].files@[f].nodes@.len(),
        ensures
            response.layers@.len() == 1,
            response.layers@[0].depth == 0,
            exists|idx: NodeIndex| #[trigger]
                self.graph.has(idx) && presents(
                    self.graph.at(idx),
                    response.layers@[0].files@[f].file_path@,
                    response.layers@[0].files@[f].nodes@[k],
                ) && footprints::is_label(
                    self.context_graph(),
                    self.graph.at(idx),
                    response.layers@[0].files@[f].nodes@[k].symbol@,
                ),
            ({
                let node = response.layers@[0].files@[f].nodes@[k];
                self.symbols().contains_key(node.id) ==> node.symbol@ == self.symbols()[node.id]
                    && !(text::occurs("().("@, node.symbol@) && node.symbol@.len() > 0
                    && node.symbol@.last() == ')')
            }),
    {
        let footprint = self.context_footprint(req);
        let nodes = self.layer_nodes(footprint);
        let file = response.layers@[0].files@[f].file_path@;
        let graph = self.context_graph();
        let sorted = context::by_line(graph, context::nodes_in(graph, nodes, file));
        let shown = self.shown_in(nodes, file);
        let idx = self.lemma_shown_node(req, code, response, f, k);
        self.lemma_layer(req);
        self.lemma_shown_in(nodes, file, k);
        let j = choose|j: int| 0 <= j < nodes.len() && nodes[j] == idx;
        assert(self.graph.has(nodes[j]));
        self.lemma_top_level(sorted);
        assert(shown.contains(idx));
        let id = graph.at(idx).node_core().id;
        let symbols = self.graph.symbol_to_node.symbols();
        footprints::lemma_symbol_by_id(graph, symbols, id);
        self.graph.symbol_to_node.lemma_symbols();
        if self.symbols().contains_key(id) {
            let i = choose|i: int| 0 <= i < symbols.len() && symbols[i] == self.symbols()[id];
            assert(self.graph.symbol_to_node@.contains_key(symbols[i]));
        } else {
            let known = self.graph.symbol_to_node@;
            assert forall|other: Seq<char>| #[trigger]
                known.contains_key(other) implies self.graph.at(known[other]).node_core().id
                != id by {
                assert(symbols.contains(other));
            }
        }
    }

    /// A context reports of a footprint what a computation of the same symbol reports of
    /// it, under the same policy and limit.
    pub proof fn law_context_reports_what_is_computed(
        &self,
        req: ContextRequest,
        code: Seq<Vec<String>>,
        response: ContextResponse,
        same: ComputeRequest,
        computed: ComputeResponse,
    )
        requires
            self.wf(),
            self.answers_context(req, code, Ok(response)),
            text::texts(same.symbols@) == seq![req.symbol@],
            same.policy == req.policy,
            same.max_tokens == req.max_tokens,
            self.answers_compute(same, Ok(computed)),
        ensures
            response.symbol@ == req.symbol@,
            response.total_context_size == computed.total_context_size,
            response.cf_total == computed.cf_total,
            response.cf_out == computed.cf_out,
            response.cf_in == computed.cf_in,
            response.cf_overlap == computed.cf_overlap,
            text::texts(response.out_fragments@) == text::texts(computed.out_fragments@),
            text::texts(response.in_fragments@) == text::texts(computed.in_fragments@),
            response.truncated == computed.truncated,
            response.unresolved_state_count == computed.unresolved_state_count,
            response.boundary_stop_count == computed.boundary_stop_count,
            engine::stop_views(response.boundary_stops@) == engine::stop_views(
                computed.boundary_stops@,
            ),
            response.boundary_policy_id@ == computed.boundary_policy_id@,
            response.size_function_id@ == computed.size_function_id@,
            response.measurement_scope_id@ == computed.measurement_scope_id@,
            response.graph_total_references == computed.graph_total_references,
            response.graph_unresolved_calls == computed.graph_unresolved_calls,
            response.graph_total_functions == computed.graph_total_functions,
            response.graph_functions_with_explicit_fragments
                == computed.graph_functions_with_explicit_fragments,
            response.reachable_node_count == computed.reachable_node_count,
    {
        anchors::law_node_stands_for_itself(self.context_graph(), req.symbol@);
        let a = context::context_summary(response);
        let b = anchors::compute_summary(computed);
        assert(a == b);
        assert(a.total_context_size == b.total_context_size && a.cf_total == b.cf_total && a.cf_out
            == b.cf_out && a.cf_in == b.cf_in && a.cf_overlap == b.cf_overlap);
        assert(a.graph_total_references == b.graph_total_references && a.graph_unresolved_calls
            == b.graph_unresolved_calls && a.graph_total_functions == b.graph_total_functions);
    }

    /// Each node that a computation of the same symbol reports, under the same policy and
    /// limit, has its file listed in the context. It is shown there, or its lines lie
    /// within those of a node that is shown there, or it is known as a parameter: by a
    /// symbol that has "().(" in it and ends in ")".
    pub proof fn law_computed_nodes_are_shown(
        &self,
        req: ContextRequest,
        code: Seq<Vec<String>>,
        response: ContextResponse,
        same: ComputeRequest,
        computed: ComputeResponse,
        n: int,
    )
        requires
            self.wf(),
            self.answers_context(req, code, Ok(response)),
            req.include_code ==> code.len() == self.shown_nodes(
                self.context_footprint(req),
            ).len(),
            text::texts(same.symbols@) == seq![req.symbol@],
            same.policy == req.policy,
            same.max_tokens == req.max_tokens,
            self.answers_compute(same, Ok(computed)),
            0 <= n < computed.reachable_nodes_ordered@.len(),
        ensures
            response.layers@.len() == 1,
            exists|f: int| #[trigger]
                has_place(response.layers@[0].files@, computed.reachable_nodes_ordered@[n], f),
    {
        let graph = self.context_graph();
        let node = computed.reachable_nodes_ordered@[n];
        let footprint = self.context_footprint(req);
        let nodes = self.layer_nodes(footprint);
        let paths = self.layer_files(footprint);
        let lines = Self::shown_code(req, code);
        let ids = self.footprint_ids(footprint);
        anchors::law_node_stands_for_itself(graph, req.symbol@);
        let views = dto::reachable_views(computed.reachable_nodes_ordered@);
        assert(views.len() == computed.reachable_nodes_ordered@.len());
        assert(views == ids.map_values(|id: u32| self.reported_node(id)));
        assert(views[n] == node@);
        assert(views[n] == self.reported_node(ids[n]));
        let idx = nodes[n];
        assert(idx == engine::index_by_id(self.graph.nodes())[ids[n]]);
        self.lemma_layer(req);
        assert(nodes.contains(idx));
        let file = context::file_of(graph, idx);
        let files = response.layers@[0].files@;
        lemma_files_of(graph, nodes);
        sort::law_sorting_different_texts(context::files_of(graph, nodes));
        assert(paths.contains(file));
        let f = choose|f: int| 0 <= f < paths.len() && paths[f] == file;
        let shown_files = files.map_values(|file: ContextFile| file@);
        assert(shown_files == self.context_files(nodes, paths, lines));
        self.lemma_context_count(nodes, paths, lines);
        assert(shown_files.len() == files.len());
        self.lemma_context_files(nodes, paths, lines, f);
        assert(shown_files[f] == files[f]@);
        let members = context::nodes_in(graph, nodes, file);
        let sorted = context::by_line(graph, members);
        let shown = self.shown_in(nodes, file);
        lemma_nodes_in(graph, nodes, file);
        lemma_by_line(graph, members);
        self.lemma_top_level(sorted);
        assert(members.contains(idx));
        assert(sorted.contains(idx));
        let listed = files[f].nodes@.map_values(|node: ContextNode| node@);
        assert(listed.len() == files[f].nodes@.len());
        if shown.contains(idx) {
            let j = choose|j: int| 0 <= j < shown.len() && shown[j] == idx;
            let at = self.lemma_shown_node(req, code, response, f, j);
            assert(files[f].nodes@[j]@.id == graph.at(idx).node_core().id);
            self.lemma_same_id(footprint, req, n);
            assert(files[f].nodes@[j].id == node.id);
        } else if context::is_contained(graph, shown, idx) {
            let j = choose|j: int|
                0 <= j < shown.len() && context::lies_within(graph, #[trigger] shown[j], idx);
            let at = self.lemma_shown_node(req, code, response, f, j);
            assert(files[f].nodes@[j]@.span == engine::span_view(
                graph.at(shown[j]).node_core().span,
            ));
            assert(node.span == engine::span_view(graph.at(idx).node_core().span));
            assert(covers(files[f].nodes@[j], node));
        } else {
            self.lemma_same_id(footprint, req, n);
            if !self.symbols().contains_key(ids[n]) {
                assert(self.symbol_at(idx).len() == 0);
            }
            assert(self.symbol_at(idx) == node.symbol@);
        }
        assert(has_place(files, node, f));
    }

    proof fn lemma_same_id(
        &self,
        footprint: solver::Footprint,
        req: ContextRequest,
        n: int,
    )
        requires
            self.wf(),
            footprint == self.context_footprint(req),
            self.graph.symbol_to_node@.contains_key(req.symbol@),
            0 <= n < footprint.nodes().len(),
        ensures
            self.graph.at(self.layer_nodes(footprint)[n]).node_core().id == self.footprint_ids(
                footprint,
            )[n],
    {
        let starts = seq![self.graph.symbol_to_node@[req.symbol@]];
        assert(forall|i: int| 0 <= i < starts.len() ==> self.graph.has(#[trigger] starts[i]));
        self.solver_for(req.policy).lemma_footprint_nodes(starts, req.max_tokens);
        assert(self.graph.has(footprint.nodes()[n]));
        engine::lemma_index_by_id(self.graph.nodes(), footprint.nodes()[n].ix as int);
    }

    /// Steps of a traversal are shown exactly if they were asked for, one for each node
    /// that a computation of the same symbol reports, in that order. A step says how the
    /// node was reached, unless it was started from, and of a function whether all its
    /// parameters have types and it has a return type.
    pub proof fn law_steps_are_shown_on_request(
        &self,
        req: ContextRequest,
        code: Seq<Vec<String>>,
        response: ContextResponse,
        same: ComputeRequest,
        computed: ComputeResponse,
        n: int,
    )
        requires
            self.wf(),
            self.answers_context(req, code, Ok(response)),
            text::texts(same.symbols@) == seq![req.symbol@],
            same.policy == req.policy,
            same.max_tokens == req.max_tokens,
            self.answers_compute(same, Ok(computed)),
            0 <= n < computed.reachable_nodes_ordered@.len(),
        ensures
            response.traversal_steps is Some <==> req.show_traversal,
            req.show_traversal ==> {
                let steps = response.traversal_steps->0@;
                let node = self.node_with(steps[n].node.id);
                &&& steps.len() == computed.reachable_nodes_ordered@.len()
                &&& steps[n].node@ == computed.reachable_nodes_ordered@[n]@
                &&& steps[n].edge_kind is Some <==> steps[n].decision is Some
                &&& steps[n].decision is Some ==> steps[n].decision->0@ == "Boundary"@
                    || steps[n].decision->0@ == "Transparent"@
                &&& steps[n].is_signature_complete is Some <==> node is Function
                &&& node matches Node::Function(function) ==> (
                steps[n].is_signature_complete->0 <==> function.return_types@.len() > 0
                    && forall|i: int|
                    0 <= i < function.parameters@.len() ==> (
                    #[trigger] function.parameters@[i]).param_type is Some)
            },
    {
        let graph = self.context_graph();
        let footprint = self.context_footprint(req);
        let ids = self.footprint_ids(footprint);
        anchors::law_node_stands_for_itself(graph, req.symbol@);
        let views = dto::reachable_views(computed.reachable_nodes_ordered@);
        assert(views.len() == computed.reachable_nodes_ordered@.len());
        assert(views == ids.map_values(|id: u32| self.reported_node(id)));
        assert(views[n] == computed.reachable_nodes_ordered@[n]@);
        assert(views[n] == self.reported_node(ids[n]));
        if req.show_traversal {
            let steps = response.traversal_steps->0@;
            let shown = steps.map_values(|step: TraversalStepDto| step@);
            let expected = solver::steps_of(graph, footprint).map_values(
                |step: solver::TraversalStep| self.step_view(step),
            );
            assert(shown == expected);
            assert(shown.len() == steps.len());
            assert(expected.len() == ids.len());
            assert(shown[n] == steps[n]@);
            assert(expected[n] == self.step_view(solver::steps_of(graph, footprint)[n]));
        }
    }

    /// Nodes that are shown under a file are nodes of the list, and of that file.
    proof fn lemma_shown_in(&self, nodes: Seq<NodeIndex>, file: Seq<char>, k: int)
        requires
            nodes.len() <= usize::MAX,
            0 <= k < self.shown_in(nodes, file).len(),
        ensures
            nodes.contains(self.shown_in(nodes, file)[k]),
            context::file_of(self.context_graph(), self.shown_in(nodes, file)[k]) == file,
    {
        let graph = self.context_graph();
        let members = context::nodes_in(graph, nodes, file);
        let sorted = context::by_line(graph, members);
        lemma_nodes_in(graph, nodes, file);
        lemma_by_line(graph, members);
        self.lemma_top_level(sorted);
        let x = self.shown_in(nodes, file)[k];
        assert(self.top_level(sorted).contains(x));
        assert(sorted.contains(x));
        assert(members.contains(x));
    }

    /// Of some nodes those are shown that are no parameters and do not lie within one
    /// that is shown already.
    proof fn lemma_top_level(&self, nodes: Seq<NodeIndex>)
        ensures
            forall|x: NodeIndex| #[trigger]
                self.top_level(nodes).contains(x) ==> nodes.contains(x) && !context::is_parameter(
                    self.symbol_at(x),
                ),
            forall|i: int, j: int|
                #![trigger self.top_level(nodes)[i], self.top_level(nodes)[j]]
                0 <= i < j < self.top_level(nodes).len() ==> !context::lies_within(
                    self.context_graph(),
                    self.top_level(nodes)[i],
                    self.top_level(nodes)[j],
                ),
            forall|x: NodeIndex| #[trigger]
                nodes.contains(x) ==> self.top_level(nodes).contains(x) || context::is_parameter(
                    self.symbol_at(x),
                ) || context::is_contained(self.context_graph(), self.top_level(nodes), x),
            by_start(self.context_graph(), nodes) ==> by_start(
                self.context_graph(),
                self.top_level(nodes),
            ),
        decreases nodes.len(),
    {
        if nodes.len() > 0 {
            let graph = self.context_graph();
            let rest = nodes.drop_last();
            let before = self.top_level(rest);
            let after = self.top_level(nodes);
            let last = nodes.last();
            self.lemma_top_level(rest);
            assert(nodes[nodes.len() - 1] == last);
            if by_start(graph, nodes) {
                assert(forall|i: int| 0 <= i < rest.len() ==> rest[i] == nodes[i]);
                assert(by_start(graph, rest));
                assert forall|i: int, j: int|
                    #![trigger after[i], after[j]]
                    0 <= i < j < after.len() implies context::line_of(graph, after[i])
                    <= context::line_of(graph, after[j]) by {
                    assert(after[i] == before[i]);
                    if j < before.len() {
                        assert(after[j] == before[j]);
                    } else {
                        assert(before.contains(before[i]));
                        let k = choose|k: int| 0 <= k < rest.len() && rest[k] == before[i];
                        assert(nodes[k] == before[i]);
                    }
                }
            }
            assert forall|x: NodeIndex| #[trigger] after.contains(x) implies nodes.contains(x)
                && !context::is_parameter(self.symbol_at(x)) by {
                let k = choose|k: int| 0 <= k < after.len() && after[k] == x;
                if k < before.len() {
                    assert(before[k] == x);
                    assert(before.contains(x));
                    let j = choose|j: int| 0 <= j < rest.len() && rest[j] == x;
                    assert(nodes[j] == x);
                }
            }
            assert forall|i: int, j: int|
                #![trigger after[i], after[j]]
                0 <= i < j < after.len() implies !context::lies_within(
                graph,
                after[i],
                after[j],
            ) by {
                assert(after[i] == before[i]);
                if j < before.len() {
                    assert(after[j] == before[j]);
                } else {
                    assert(!context::is_contained(graph, before, last));
                }
            }
            assert forall|x: NodeIndex| #[trigger] nodes.contains(x) implies after.contains(x)
                || context::is_parameter(self.symbol_at(x)) || context::is_contained(
                graph,
                after,
                x,
            ) by {
                let j = choose|j: int| 0 <= j < nodes.len() && nodes[j] == x;
                if j < rest.len() {
                    assert(rest[j] == x);
                    assert(rest.contains(x));
                    if before.contains(x) {
                        let k = choose|k: int| 0 <= k < before.len() && before[k] == x;
                        assert(after[k] == x);
                    } else if context::is_contained(graph, before, x) {
                        let k = choose|k: int|
                            0 <= k < before.len() && context::lies_within(
                                graph,
                                #[trigger] before[k],
                                x,
                            );
                        assert(after[k] == before[k]);
                    }
                } else if after.len() > before.len() {
                    assert(after[before.len() as int] == x);
                }
            }
        }
    }
}

/// The lines from one number to another are those with these numbers and all between
/// them, counted from zero, as far as there are any.
pub proof fn law_lines_are_selected_by_number(
    lines: Seq<Seq<char>>,
    start: int,
    end: int,
    i: int,
)
    requires
        0 <= start <= end,
    ensures
        context::lines_between(lines, start, end).len() == if start >= lines.len() {
            0
        } else if end >= lines.len() {
            lines.len() - start
        } else {
            end - start + 1
        },
        start <= i <= end && i < lines.len() ==> context::lines_between(lines, start, end)[i
            - start] == lines[i],
{
}

/// Whether a node is shown under its file, with what is known of it.
pub open spec fn presents(node: Node, file: Seq<char>, shown: ContextNode) -> bool {
    let about = node.node_core();
    &&& about.file_path@ == file
    &&& shown.id == about.id
    &&& shown.node_type@ == if node is Function {
        "function"@
    } else {
        "variable"@
    }
    &&& shown.context_size == about.context_size
    &&& shown.doc_score == about.doc_score
    &&& shown.is_external == about.is_external
    &&& shown.span.start_line == about.span.start_line
    &&& shown.span.end_line == about.span.end_line
    &&& shown.span.start_column == about.span.start_column
    &&& shown.span.end_column == about.span.end_column
    &&& shown.span.start_line_1based == about.span.start_line + 1
    &&& shown.span.end_line_1based == about.span.end_line + 1
}

/// Whether the lines of a node lie within those of one that is shown.
pub open spec fn covers(shown: ContextNode, node: ReachableNode) -> bool {
    shown.span.start_line <= node.span.start_line && node.span.end_line <= shown.span.end_line
}

/// Whether a node has its place under a file: it is shown there, or covered by a node
/// that is, or known as a parameter.
pub open spec fn has_place(files: Seq<ContextFile>, node: ReachableNode, f: int) -> bool {
    &&& 0 <= f < files.len()
    &&& files[f].file_path@ == node.file_path@
    &&& {
        ||| exists|k: int|
            0 <= k < files[f].nodes@.len() && (#[trigger] files[f].nodes@[k]).id == node.id
        ||| exists|k: int|
            0 <= k < files[f].nodes@.len() && covers(#[trigger] files[f].nodes@[k], node)
        ||| text::occurs("().("@, node.symbol@) && node.symbol@.len() > 0 && node.symbol@.last()
            == ')'
    }
}

/// Whether nodes come in the order of their first lines.
spec fn by_start(graph: ContextGraph, nodes: Seq<NodeIndex>) -> bool {
    forall|i: int, j: int|
        #![trigger nodes[i], nodes[j]]
        0 <= i < j < nodes.len() ==> context::line_of(graph, nodes[i]) <= context::line_of(
            graph,
            nodes[j],
        )
}

proof fn lemma_files_of(graph: ContextGraph, nodes: Seq<NodeIndex>)
    ensures
        context::files_of(graph, nodes).no_duplicates(),
        context::files_of(graph, nodes).len() <= nodes.len(),
        forall|x: NodeIndex| #[trigger]
            nodes.contains(x) ==> context::files_of(graph, nodes).contains(
                context::file_of(graph, x),
            ),
    decreases nodes.len(),
{
    if nodes.len() > 0 {
        let rest = nodes.drop_last();
        let before = context::files_of(graph, rest);
        let after = context::files_of(graph, nodes);
        lemma_files_of(graph, rest);
        assert forall|x: NodeIndex| #[trigger] nodes.contains(x) implies after.contains(
            context::file_of(graph, x),
        ) by {
            let file = context::file_of(graph, x);
            let j = choose|j: int| 0 <= j < nodes.len() && nodes[j] == x;
            if j < rest.len() {
                assert(rest[j] == x);
                assert(rest.contains(x));
            }
            if before.contains(file) {
                let k = choose|k: int| 0 <= k < before.len() && before[k] == file;
                assert(after[k] == file);
            } else {
                assert(after[before.len() as int] == file);
            }
        }
    }
}

proof fn lemma_merged_once(a: Seq<NodeIndex>, b: Seq<NodeIndex>)
    requires
        a.no_duplicates(),
    ensures
        solver::merged_nodes(a, b).no_duplicates(),
    decreases b.len(),
{
    if b.len() > 0 {
        lemma_merged_once(a, b.drop_last());
    }
}

proof fn lemma_nodes_in(graph: ContextGraph, nodes: Seq<NodeIndex>, file: Seq<char>)
    ensures
        context::nodes_in(graph, nodes, file).len() <= nodes.len(),
        forall|x: NodeIndex| #[trigger]
            context::nodes_in(graph, nodes, file).contains(x) <==> nodes.contains(x)
                && context::file_of(graph, x) == file,
    decreases nodes.len(),
{
    if nodes.len() > 0 {
        let rest = nodes.drop_last();
        let before = context::nodes_in(graph, rest, file);
        let after = context::nodes_in(graph, nodes, file);
        lemma_nodes_in(graph, rest, file);
        assert(nodes[nodes.len() - 1] == nodes.last());
        assert forall|x: NodeIndex| #[trigger] after.contains(x) <==> nodes.contains(x)
            && context::file_of(graph, x) == file by {
            if after.contains(x) {
                let k = choose|k: int| 0 <= k < after.len() && after[k] == x;
                if k < before.len() {
                    assert(before[k] == x);
                    assert(before.contains(x));
                    let j = choose|j: int| 0 <= j < rest.len() && rest[j] == x;
                    assert(nodes[j] == x);
                }
            }
            if nodes.contains(x) && context::file_of(graph, x) == file {
                let j = choose|j: int| 0 <= j < nodes.len() && nodes[j] == x;
                if j < rest.len() {
                    assert(rest[j] == x);
                    assert(before.contains(x));
                    let k = choose|k: int| 0 <= k < before.len() && before[k] == x;
                    assert(after[k] == x);
                } else {
                    assert(after[before.len() as int] == x);
                }
            }
        }
    }
}

proof fn lemma_by_line(graph: ContextGraph, nodes: Seq<NodeIndex>)
    requires
        nodes.len() <= usize::MAX,
    ensures
        forall|x: NodeIndex| #[trigger]
            context::by_line(graph, nodes).contains(x) <==> nodes.contains(x),
        forall|i: int, j: int|
            #![trigger context::by_line(graph, nodes)[i], context::by_line(graph, nodes)[j]]
            0 <= i < j < context::by_line(graph, nodes).len() ==> context::line_of(
                graph,
                context::by_line(graph, nodes)[i],
            ) <= context::line_of(graph, context::by_line(graph, nodes)[j]),
{
    let keys = nodes.map_values(|idx: NodeIndex| context::line_of(graph, idx));
    let sorted = context::by_line(graph, nodes);
    let order = sort::stable_order(nodes.len(), sort::key_order(keys));
    sort::law_sorting_by_keys(nodes, keys);
    nodes.to_multiset_ensures();
    sorted.to_multiset_ensures();
    assert forall|x: NodeIndex| #[trigger] sorted.contains(x) <==> nodes.contains(x) by {
        assert(sorted.to_multiset().count(x) == nodes.to_multiset().count(x));
    }
    assert forall|i: int, j: int|
        #![trigger sorted[i], sorted[j]]
        0 <= i < j < sorted.len() implies context::line_of(graph, sorted[i]) <= context::line_of(
        graph,
        sorted[j],
    ) by {
        assert(!sort::SortKey::precedes(&keys[order[j] as int], &keys[order[i] as int]));
    }
}

} // verus!
