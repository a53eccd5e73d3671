//! The names of fragments: in a graph that was built from a model whose symbols are
//! told apart, a name stands for one fragment.

use crate::domain::boundaries;
use crate::domain::facts;
use crate::domain::fragments;
use crate::domain::graph::{ContextGraph, NodeIndex};
use crate::domain::node::{CoreView, NodeView};
use crate::domain::plan;
use crate::domain::plan::{Plan, Stage};
use crate::domain::policy::{BoundaryPolicy, DocumentationScorer, SizeFunction};
use crate::domain::semantic;
use crate::domain::semantic::{DocumentSemantics, SemanticData, SymbolDefinition, SymbolDetails};
use crate::domain::solver::CfSolver;
use crate::domain::text;
use crate::domain::traversal;
use crate::domain::traversal::{Charge, ReasoningState};
use crate::domain::type_closure;
use crate::domain::type_registry::{TypeInfo, TypeInfoView};
use vstd::prelude::*;

verus! {

/// The name of the surface of a symbol.
pub open spec fn surface_name(symbol: Seq<char>) -> Seq<char> {
    symbol + ":surface"@
}

/// The name of the implementation of a symbol.
pub open spec fn implementation_name(symbol: Seq<char>) -> Seq<char> {
    symbol + ":implementation"@
}

/// Whether no two definitions of a list have the same symbol.
pub open spec fn told_apart(definitions: Seq<SymbolDefinition>) -> bool {
    forall|i: int, j: int|
        #![trigger definitions[i], definitions[j]]
        0 <= i < j < definitions.len() ==> definitions[i].symbol_id@
            != definitions[j].symbol_id@
}

/// Whether a symbol names a core, and the fragments of the core are named after it.
pub open spec fn named_after(core_view: CoreView, symbol: Seq<char>) -> bool {
    &&& core_view.surface_fragment.id == surface_name(symbol)
    &&& core_view.implementation_fragment matches Some(fragment) ==> fragment.id
        == implementation_name(symbol)
}

/// Whether a symbol names a node, and the fragments of the node are named after it.
pub open spec fn names(plan: Plan, symbol: Seq<char>, i: int) -> bool {
    &&& plan.index.contains_key(symbol)
    &&& plan.index[symbol].ix == i
    &&& named_after(plan.nodes[i].node_core(), symbol)
}

/// Whether some symbol names a node.
pub open spec fn is_named(plan: Plan, i: int) -> bool {
    exists|symbol: Seq<char>| #[trigger] names(plan, symbol, i)
}

/// Whether all nodes and types are named, and no symbol names both.
pub open spec fn all_named(plan: Plan) -> bool {
    &&& forall|i: int| 0 <= i < plan.nodes.len() ==> #[trigger] is_named(plan, i)
    &&& forall|symbol: Seq<char>| #[trigger]
        plan.types.contains_key(symbol) ==> plan.types[symbol].surface_fragment.id
            == surface_name(symbol) && !plan.index.contains_key(symbol)
}

/// Whether a symbol is that of a definition.
pub open spec fn is_defined(definitions: Seq<SymbolDefinition>, symbol: Seq<char>) -> bool {
    exists|k: int|
        0 <= k < definitions.len() && (#[trigger] definitions[k]).symbol_id@ == symbol
}

/// Whether all symbols of a plan are those of definitions.
pub open spec fn only_defined(plan: Plan, definitions: Seq<SymbolDefinition>) -> bool {
    forall|symbol: Seq<char>|
        #![trigger is_defined(definitions, symbol)]
        plan.index.contains_key(symbol) || plan.types.contains_key(symbol) ==> is_defined(
            definitions,
            symbol,
        )
}

proof fn lemma_with_node(before: Plan, symbol: Seq<char>, node: NodeView)
    requires
        all_named(before),
        facts::numbered(before),
        before.nodes.len() < u32::MAX,
        !before.index.contains_key(symbol),
        !before.types.contains_key(symbol),
        named_after(node.node_core(), symbol),
    ensures
        all_named(before.with_node(symbol, node)),
{
    let after = before.with_node(symbol, node);
    let n = before.nodes.len() as int;
    assert forall|i: int| 0 <= i < after.nodes.len() implies #[trigger] is_named(after, i) by {
        if i < n {
            assert(is_named(before, i));
            let s = choose|s: Seq<char>| #[trigger] names(before, s, i);
            assert(after.nodes[i] == before.nodes[i]);
            assert(names(after, s, i));
        } else {
            assert(after.nodes[i] == node);
            assert(names(after, symbol, i));
        }
    }
}

proof fn lemma_with_type(before: Plan, symbol: Seq<char>, info: TypeInfoView)
    requires
        all_named(before),
        !before.index.contains_key(symbol),
        info.surface_fragment.id == surface_name(symbol),
    ensures
        all_named(before.with_type(symbol, info)),
{
    let after = before.with_type(symbol, info);
    assert forall|i: int| 0 <= i < after.nodes.len() implies #[trigger] is_named(after, i) by {
        assert(is_named(before, i));
        let s = choose|s: Seq<char>| #[trigger] names(before, s, i);
        assert(names(after, s, i));
    }
}

/// The names depend on the cores, symbols and types alone.
proof fn lemma_names_stay(before: Plan, after: Plan)
    requires
        all_named(before),
        after.nodes.len() == before.nodes.len(),
        forall|i: int|
            0 <= i < before.nodes.len() ==> (#[trigger] after.nodes[i]).node_core()
                == before.nodes[i].node_core(),
        after.index == before.index,
        after.types == before.types,
    ensures
        all_named(after),
{
    assert forall|i: int| 0 <= i < after.nodes.len() implies #[trigger] is_named(after, i) by {
        assert(is_named(before, i));
        let s = choose|s: Seq<char>| #[trigger] names(before, s, i);
        assert(names(after, s, i));
    }
}

proof fn lemma_add_internal<S: SizeFunction, D: DocumentationScorer>(
    size_function: S,
    doc_scorer: D,
    before: Plan,
    def: SymbolDefinition,
    path: Seq<char>,
    source: Seq<char>,
)
    requires
        all_named(before),
        facts::numbered(before),
        !before.index.contains_key(def.symbol_id@),
        !before.types.contains_key(def.symbol_id@),
    ensures
        plan::add_internal(size_function, doc_scorer, before, def, path, source) matches
            Stage::Going(after) ==> {
            &&& all_named(after)
            &&& forall|symbol: Seq<char>|
                #![trigger after.index.contains_key(symbol)]
                #![trigger after.types.contains_key(symbol)]
                (after.index.contains_key(symbol) || after.types.contains_key(symbol))
                    && symbol != def.symbol_id@ ==> before.index.contains_key(symbol)
                    || before.types.contains_key(symbol)
        },
{
    let parts = fragments::fragments_of(
        def,
        source,
        size_function,
        plan::is_interface_method(def),
    );
    let doc_score = plan::score_of(doc_scorer, def, path);
    let symbol = def.symbol_id@;
    let info = fragments::type_info_of(def, parts.surface, doc_score);
    let core_view = plan::core_of(
        before.nodes.len() as u32,
        def,
        parts,
        doc_score,
        def.is_external,
        path,
    );
    assert(parts.surface.id == surface_name(symbol));
    assert(named_after(core_view, symbol));
    if let Stage::Going(after) = plan::add_internal(
        size_function,
        doc_scorer,
        before,
        def,
        path,
        source,
    ) {
        if def.kind == semantic::SymbolKind::Type {
            let registered = before.with_type(symbol, info);
            lemma_with_type(before, symbol, info);
            if let SymbolDetails::Type(t) = def.details {
                let first = text::texts(t.implements@);
                let second = text::texts(t.inherits@);
                facts::lemma_with_implementors(registered, first, symbol);
                facts::lemma_with_implementors(
                    registered.with_implementors(first, symbol),
                    second,
                    symbol,
                );
            }
            lemma_names_stay(registered, after);
        } else {
            let node = fragments::node_of(core_view, def, plan::is_interface_method(def))->0;
            assert(node.node_core() == core_view);
            lemma_with_node(before, symbol, node);
        }
    }
}

proof fn lemma_add_external<S: SizeFunction, D: DocumentationScorer>(
    size_function: S,
    doc_scorer: D,
    before: Plan,
    def: SymbolDefinition,
)
    requires
        all_named(before),
        facts::numbered(before),
    ensures
        plan::add_external(size_function, doc_scorer, before, def) matches Stage::Going(after)
            ==> all_named(after),
{
    let symbol = def.symbol_id@;
    if !before.index.contains_key(symbol) && !before.types.contains_key(symbol) {
        let surface = fragments::external_surface(
            def,
            fragments::signature_text(def),
            size_function,
        );
        let path = def.location.file_path@;
        let doc_score = plan::score_of(doc_scorer, def, path);
        let core_view = plan::core_of(
            before.nodes.len() as u32,
            def,
            fragments::Fragments { surface, implementation: None },
            doc_score,
            true,
            path,
        );
        let info = fragments::type_info_of(def, surface, doc_score);
        assert(named_after(core_view, symbol));
        if def.kind == semantic::SymbolKind::Type {
            lemma_with_type(before, symbol, info);
        } else if let Some(node) = fragments::node_of(core_view, def, false) {
            assert(node.node_core() == core_view);
            if before.nodes.len() < u32::MAX {
                lemma_with_node(before, symbol, node);
            }
        }
    }
}

proof fn lemma_add_document<S: SizeFunction, D: DocumentationScorer>(
    size_function: S,
    doc_scorer: D,
    stage: Stage,
    earlier: Seq<SymbolDefinition>,
    definitions: Seq<SymbolDefinition>,
    path: Seq<char>,
    source: Seq<char>,
)
    requires
        plan::add_document(size_function, doc_scorer, stage, definitions, path, source) is Going,
        stage matches Stage::Going(before) ==> all_named(before) && facts::numbered(before)
            && only_defined(before, earlier),
        told_apart(earlier + definitions),
    ensures
        stage is Going,
        ({
            let after = plan::add_document(
                size_function,
                doc_scorer,
                stage,
                definitions,
                path,
                source,
            )->Going_0;
            &&& all_named(after)
            &&& facts::numbered(after)
            &&& only_defined(after, earlier + definitions)
        }),
    decreases definitions.len(),
{
    if definitions.len() == 0 {
        assert(earlier + definitions =~= earlier);
    } else {
        let rest = definitions.drop_last();
        let def = definitions.last();
        let all = earlier + definitions;
        let some = earlier + rest;
        assert(some =~= all.drop_last());
        assert(all.last() == def);
        lemma_add_document(size_function, doc_scorer, stage, earlier, rest, path, source);
        let middle = plan::add_document(
            size_function,
            doc_scorer,
            stage,
            rest,
            path,
            source,
        )->Going_0;
        if middle.index.contains_key(def.symbol_id@) || middle.types.contains_key(def.symbol_id@) {
            assert(is_defined(some, def.symbol_id@));
            let k = choose|k: int|
                0 <= k < some.len() && (#[trigger] some[k]).symbol_id@ == def.symbol_id@;
            assert(all[k] == some[k]);
            assert(all[all.len() - 1] == def);
            assert(false);
        }
        lemma_add_internal(size_function, doc_scorer, middle, def, path, source);
        facts::lemma_add_internal(size_function, doc_scorer, middle, def, path, source);
        let after = plan::add_document(
            size_function,
            doc_scorer,
            stage,
            definitions,
            path,
            source,
        )->Going_0;
        assert forall|symbol: Seq<char>|
            #![trigger is_defined(all, symbol)]
            after.index.contains_key(symbol) || after.types.contains_key(
                symbol,
            ) implies is_defined(all, symbol) by {
            if symbol == def.symbol_id@ {
                assert(all[all.len() - 1].symbol_id@ == symbol);
            } else {
                assert(is_defined(some, symbol));
                let k = choose|k: int|
                    0 <= k < some.len() && (#[trigger] some[k]).symbol_id@ == symbol;
                assert(all[k].symbol_id@ == symbol);
            }
        }
    }
}

proof fn lemma_add_documents<S: SizeFunction, D: DocumentationScorer>(
    size_function: S,
    doc_scorer: D,
    documents: Seq<DocumentSemantics>,
    sources: Seq<Seq<char>>,
)
    requires
        plan::add_documents(size_function, doc_scorer, documents, sources) is Going,
        told_apart(semantic::document_definitions(documents)),
    ensures
        ({
            let after = plan::add_documents(
                size_function,
                doc_scorer,
                documents,
                sources,
            )->Going_0;
            &&& all_named(after)
            &&& facts::numbered(after)
            &&& only_defined(after, semantic::document_definitions(documents))
        }),
    decreases documents.len(),
{
    if documents.len() > 0 {
        let rest = documents.drop_last();
        let stage = plan::add_documents(size_function, doc_scorer, rest, sources.drop_last());
        let earlier = semantic::document_definitions(rest);
        let definitions = documents.last().definitions@;
        let all = earlier + definitions;
        assert forall|i: int, j: int|
            #![trigger earlier[i], earlier[j]]
            0 <= i < j < earlier.len() implies earlier[i].symbol_id@ != earlier[j].symbol_id@ by {
            assert(all[i] == earlier[i] && all[j] == earlier[j]);
        }
        if stage is Going {
            lemma_add_documents(size_function, doc_scorer, rest, sources.drop_last());
        }
        lemma_add_document(
            size_function,
            doc_scorer,
            stage,
            earlier,
            definitions,
            documents.last().relative_path@,
            sources.last(),
        );
    }
}

proof fn lemma_add_externals<S: SizeFunction, D: DocumentationScorer>(
    size_function: S,
    doc_scorer: D,
    stage: Stage,
    definitions: Seq<SymbolDefinition>,
)
    requires
        plan::add_externals(size_function, doc_scorer, stage, definitions) is Going,
        stage matches Stage::Going(before) ==> all_named(before) && facts::numbered(before),
    ensures
        ({
            let after = plan::add_externals(
                size_function,
                doc_scorer,
                stage,
                definitions,
            )->Going_0;
            &&& all_named(after)
            &&& facts::numbered(after)
        }),
    decreases definitions.len(),
{
    if definitions.len() > 0 {
        let rest = definitions.drop_last();
        lemma_add_externals(size_function, doc_scorer, stage, rest);
        let middle = plan::add_externals(size_function, doc_scorer, stage, rest)->Going_0;
        lemma_add_external(size_function, doc_scorer, middle, definitions.last());
        facts::lemma_add_external(size_function, doc_scorer, middle, definitions.last());
    }
}

/// The graph that a model describes has its nodes and types named by their symbols, if
/// the symbols of the documents are told apart.
pub proof fn law_symbols_name_fragments<S: SizeFunction, D: DocumentationScorer>(
    size_function: S,
    doc_scorer: D,
    data: SemanticData,
    sources: Seq<Seq<char>>,
)
    requires
        plan::described(size_function, doc_scorer, data, sources) is Described,
        told_apart(semantic::document_definitions(data.documents@)),
    ensures
        all_named(plan::described(size_function, doc_scorer, data, sources)->Described_0.plan),
{
    facts::lemma_stages(size_function, doc_scorer, data, sources);
    let s = facts::stages(size_function, doc_scorer, data, sources);
    let documented = plan::add_documents(size_function, doc_scorer, data.documents@, sources);
    if documented is Going {
        lemma_add_documents(size_function, doc_scorer, data.documents@, sources);
    }
    lemma_add_externals(size_function, doc_scorer, documented, data.external_symbols@);
    lemma_names_stay(s.allocated, s.wiring.plan);
    lemma_names_stay(s.wiring.plan, s.typed);
    lemma_names_stay(s.typed, s.full);
}

/// Whether a charge is that of a fragment of a symbol: the surface of a node or type,
/// or the implementation of a node.
spec fn is_fragment_of(plan: Plan, charge: Charge, symbol: Seq<char>) -> bool {
    let core_view = plan.node_at(plan.index[symbol]).node_core();
    ||| {
        &&& plan.index.contains_key(symbol)
        &&& charge.id == surface_name(symbol)
        &&& charge.size == core_view.surface_fragment.context_size
    }
    ||| {
        &&& plan.index.contains_key(symbol)
        &&& charge.id == implementation_name(symbol)
        &&& core_view.implementation_fragment is Some
        &&& charge.size == core_view.implementation_fragment->0.context_size
    }
    ||| {
        &&& plan.types.contains_key(symbol)
        &&& charge.id == surface_name(symbol)
        &&& charge.size == plan.types[symbol].surface_fragment.context_size
    }
}

/// Names of fragments tell symbols apart, and surfaces from implementations.
proof fn lemma_names_differ(a: Seq<char>, b: Seq<char>)
    ensures
        surface_name(a) == surface_name(b) ==> a == b,
        implementation_name(a) == implementation_name(b) ==> a == b,
        surface_name(a) != implementation_name(b),
{
    reveal_strlit(":surface");
    reveal_strlit(":implementation");
    if surface_name(a) == surface_name(b) {
        assert(surface_name(a).take(a.len() as int) =~= a);
        assert(surface_name(b).take(b.len() as int) =~= b);
    }
    if implementation_name(a) == implementation_name(b) {
        assert(implementation_name(a).take(a.len() as int) =~= a);
        assert(implementation_name(b).take(b.len() as int) =~= b);
    }
    assert(surface_name(a).last() == 'e');
    assert(implementation_name(b).last() == 'n');
}

proof fn lemma_one_size(plan: Plan, c: Charge, d: Charge, a: Seq<char>, b: Seq<char>)
    requires
        all_named(plan),
        is_fragment_of(plan, c, a),
        is_fragment_of(plan, d, b),
        c.id == d.id,
    ensures
        c.size == d.size,
{
    lemma_names_differ(a, b);
    lemma_names_differ(b, a);
    if plan.types.contains_key(a) {
        assert(!plan.index.contains_key(a));
    }
}

/// The surfaces of types are fragments of symbols.
proof fn lemma_type_charges(
    plan: Plan,
    type_ids: Seq<Seq<char>>,
    types: Map<Seq<char>, TypeInfo>,
    i: int,
)
    requires
        all_named(plan),
        plan.types == types.map_values(|info: TypeInfo| info@),
        0 <= i < traversal::type_charges(type_ids, types).len(),
    ensures
        exists|symbol: Seq<char>| #[trigger]
            is_fragment_of(plan, traversal::type_charges(type_ids, types)[i], symbol),
    decreases type_ids.len(),
{
    let rest = traversal::type_charges(type_ids.drop_last(), types);
    let symbol = type_ids.last();
    if i < rest.len() {
        lemma_type_charges(plan, type_ids.drop_last(), types, i);
        assert(traversal::type_charges(type_ids, types)[i] == rest[i]);
    } else {
        assert(plan.types.contains_key(symbol));
        assert(plan.types[symbol] == types[symbol]@);
        assert(is_fragment_of(plan, traversal::type_charges(type_ids, types)[i], symbol));
    }
}

/// What a state needs are fragments of symbols.
proof fn lemma_required(graph: &ContextGraph, s: ReasoningState, i: int)
    requires
        all_named(plan::plan_of(*graph)),
        graph.has(s.node_index),
        0 <= i < traversal::required(*graph, s).len(),
    ensures
        exists|symbol: Seq<char>| #[trigger]
            is_fragment_of(plan::plan_of(*graph), traversal::required(*graph, s)[i], symbol),
{
    let plan = plan::plan_of(*graph);
    let node = graph.at(s.node_index);
    let at = s.node_index.ix as int;
    assert(is_named(plan, at));
    let symbol = choose|symbol: Seq<char>| #[trigger] names(plan, symbol, at);
    assert(plan.nodes[at] == node@);
    assert(plan.node_at(plan.index[symbol]) == node@);
    let types = traversal::type_charges(
        type_closure::named_types(traversal::mentioned_types(node), graph.types()),
        graph.types(),
    );
    let all = traversal::required(*graph, s);
    if i == 0 {
        assert(is_fragment_of(plan, all[i], symbol));
    } else if i <= types.len() {
        assert(all[i] == types[i - 1]);
        lemma_type_charges(
            plan,
            type_closure::named_types(traversal::mentioned_types(node), graph.types()),
            graph.types(),
            i - 1,
        );
    } else {
        assert(is_fragment_of(plan, all[i], symbol));
    }
}

/// A graph whose nodes and types are named by their symbols gives each fragment one
/// size.
pub proof fn law_names_have_one_size(graph: &ContextGraph)
    requires
        all_named(plan::plan_of(*graph)),
    ensures
        boundaries::sizes_consistent(*graph),
{
    let plan = plan::plan_of(*graph);
    assert forall|s: ReasoningState, t: ReasoningState, i: int, j: int|
        #![trigger traversal::required(*graph, s)[i], traversal::required(*graph, t)[j]]
        graph.has(s.node_index) && graph.has(t.node_index) && 0 <= i < traversal::required(
            *graph,
            s,
        ).len() && 0 <= j < traversal::required(*graph, t).len() && traversal::required(
            *graph,
            s,
        )[i].id == traversal::required(*graph, t)[j].id implies traversal::required(
        *graph,
        s,
    )[i].size == traversal::required(*graph, t)[j].size by {
        let c = traversal::required(*graph, s)[i];
        let d = traversal::required(*graph, t)[j];
        lemma_required(graph, s, i);
        lemma_required(graph, t, j);
        let a = choose|symbol: Seq<char>| #[trigger] is_fragment_of(plan, c, symbol);
        let b = choose|symbol: Seq<char>| #[trigger] is_fragment_of(plan, d, symbol);
        lemma_one_size(plan, c, d, a, b);
    }
}

/// In a graph that was built from a model whose symbols are told apart, the size of a
/// footprint is that of both directions less their overlap.
pub proof fn law_built_footprint_total<
    P: BoundaryPolicy,
    S: SizeFunction,
    D: DocumentationScorer,
>(
    solver: CfSolver<P>,
    size_function: S,
    doc_scorer: D,
    data: SemanticData,
    sources: Seq<Seq<char>>,
    starts: Seq<NodeIndex>,
    max_tokens: Option<u32>,
)
    requires
        solver.graph.wf(),
        solver.has_all(starts),
        plan::described(size_function, doc_scorer, data, sources) is Described,
        plan::plan_of(*solver.graph) == plan::described(
            size_function,
            doc_scorer,
            data,
            sources,
        )->Described_0.plan,
        told_apart(semantic::document_definitions(data.documents@)),
    ensures
        ({
            let footprint = solver.footprint(starts, max_tokens);
            footprint.cf_total() == footprint.cf_out() + footprint.cf_in()
                - footprint.cf_overlap()
        }),
{
    law_symbols_name_fragments(size_function, doc_scorer, data, sources);
    law_names_have_one_size(&*solver.graph);
    boundaries::law_directions_agree_on_sizes(solver, starts, max_tokens);
    solver.law_footprint_total(starts, max_tokens);
}

/// In a graph that was built from a model whose symbols are told apart, the size of a
/// footprint under a limit is a lower bound.
pub proof fn law_built_limit_is_lower_bound<
    P: BoundaryPolicy,
    S: SizeFunction,
    D: DocumentationScorer,
>(
    solver: CfSolver<P>,
    size_function: S,
    doc_scorer: D,
    data: SemanticData,
    sources: Seq<Seq<char>>,
    starts: Seq<NodeIndex>,
    limit: u32,
)
    requires
        solver.graph.wf(),
        solver.has_all(starts),
        plan::described(size_function, doc_scorer, data, sources) is Described,
        plan::plan_of(*solver.graph) == plan::described(
            size_function,
            doc_scorer,
            data,
            sources,
        )->Described_0.plan,
        told_apart(semantic::document_definitions(data.documents@)),
    ensures
        solver.footprint(starts, Some(limit)).cf_total() <= solver.footprint(
            starts,
            None,
        ).cf_total(),
{
    law_symbols_name_fragments(size_function, doc_scorer, data, sources);
    law_names_have_one_size(&*solver.graph);
    boundaries::law_directions_agree_on_sizes(solver, starts, None);
    solver.law_limited_total_is_lower_bound(starts, limit);
}

/// In a graph that was built from a model whose symbols are told apart, a result under a
/// limit is truncated exactly where the size of the footprint exceeds the limit.
pub proof fn law_built_limit_is_met_beyond_it<
    P: BoundaryPolicy,
    S: SizeFunction,
    D: DocumentationScorer,
>(
    solver: CfSolver<P>,
    size_function: S,
    doc_scorer: D,
    data: SemanticData,
    sources: Seq<Seq<char>>,
    starts: Seq<NodeIndex>,
    limit: u32,
)
    requires
        solver.graph.wf(),
        solver.has_all(starts),
        plan::described(size_function, doc_scorer, data, sources) is Described,
        plan::plan_of(*solver.graph) == plan::described(
            size_function,
            doc_scorer,
            data,
            sources,
        )->Described_0.plan,
        told_apart(semantic::document_definitions(data.documents@)),
        limit < u32::MAX || solver.footprint(starts, None).cf_total() <= u32::MAX,
    ensures
        ({
            let some = solver.footprint(starts, Some(limit));
            some.out.truncated || some.incoming.truncated <==> solver.footprint(
                starts,
                None,
            ).cf_total() > limit
        }),
{
    law_symbols_name_fragments(size_function, doc_scorer, data, sources);
    law_names_have_one_size(&*solver.graph);
    solver.law_limit_is_met_beyond_it(starts, limit);
}

} // verus!
