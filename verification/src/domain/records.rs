//! What a graph that was built says of single definitions: each node shows what its
//! definition says of it.

use crate::domain::builder::GraphBuilder;
use crate::domain::facts;
use crate::domain::fragments;
use crate::domain::fragments::Fragments;
use crate::domain::graph::ContextGraph;
use crate::domain::naming;
use crate::domain::node;
use crate::domain::node::{
    Mutability as NodeMutability, NodeView, VariableKind, Visibility as NodeVisibility,
};
use crate::domain::plan;
use crate::domain::plan::{Plan, Stage};
use crate::domain::policy::{DocumentationScorer, NodeInfoView, NodeType, SizeFunction};
use crate::domain::score::Score;
use crate::domain::semantic;
use crate::domain::semantic::{
    DocumentSemantics, Mutability, SemanticData, SymbolDefinition, SymbolDetails, SymbolKind,
    VariableScope, Visibility,
};
use crate::domain::text;
use crate::domain::type_registry::TypeInfoView;
use vstd::prelude::*;

verus! {

/// Whether a node shows what a definition in a file says: name, scope, place and
/// documentation, what modifies a function and what it takes, and whether a variable may
/// change and where it lives.
pub open spec fn mirrors(node: NodeView, def: SymbolDefinition, path: Seq<char>) -> bool {
    let about = node.node_core();
    &&& about.name == def.name@
    &&& about.scope is Some <==> def.enclosing_symbol is Some
    &&& about.scope is Some ==> about.scope->0 == def.enclosing_symbol->0@
    &&& about.file_path == path
    &&& about.span.start_line == def.span.start_line
    &&& about.span.start_column == def.span.start_column
    &&& about.span.end_line == def.span.end_line
    &&& about.span.end_column == def.span.end_column
    &&& about.documentation.len() == def.documentation@.len()
    &&& forall|i: int|
        0 <= i < def.documentation@.len() ==> #[trigger] about.documentation[i]
            == def.documentation@[i]@
    &&& about.surface_fragment.id == def.symbol_id@ + ":surface"@
    &&& about.implementation_fragment matches Some(fragment) ==> fragment.id == def.symbol_id@
        + ":implementation"@
    &&& match (def.details, node) {
        (SymbolDetails::Function(f), NodeView::Function(n)) => {
            &&& n.is_constructor == f.modifiers.is_constructor
            &&& n.is_async == f.modifiers.is_async
            &&& n.is_generator == f.modifiers.is_generator
            &&& n.is_di_wired == f.modifiers.is_di_wired
            &&& n.visibility == NodeVisibility::Public <==> f.modifiers.visibility
                == Visibility::Public
            &&& n.visibility == NodeVisibility::Private <==> f.modifiers.visibility
                == Visibility::Private
            &&& n.visibility == NodeVisibility::Protected <==> f.modifiers.visibility
                == Visibility::Protected
            &&& n.parameters.len() == f.parameters@.len()
            &&& forall|i: int|
                #![trigger n.parameters[i]]
                0 <= i < n.parameters.len() ==> {
                    let declared = f.parameters@[i];
                    &&& n.parameters[i].name == declared.name@
                    &&& n.parameters[i].is_high_freedom_type == declared.is_high_freedom_type
                    &&& n.parameters[i].param_type is Some <==> declared.param_type is Some
                    &&& declared.param_type is Some ==> n.parameters[i].param_type->0
                        == declared.param_type->0@
                }
            &&& n.return_types.len() >= f.return_types@.len()
            &&& forall|i: int|
                #![trigger n.return_types[i]]
                0 <= i < f.return_types@.len() ==> n.return_types[i] == f.return_types@[i]@
        },
        (SymbolDetails::Variable(v), NodeView::Variable(n)) => {
            &&& n.mutability == NodeMutability::Const <==> v.mutability == Mutability::Const
            &&& n.mutability == NodeMutability::Mutable <==> v.mutability == Mutability::Mutable
            &&& n.variable_kind == VariableKind::Global <==> v.scope == VariableScope::Global
            &&& n.variable_kind == VariableKind::ClassField <==> v.scope == VariableScope::Field
            &&& v.var_type is Some ==> n.var_type is Some
        },
        _ => false,
    }
}

/// Whether a plan has a node that shows what a definition of a document says. A function
/// counts as an interface method exactly if it is declared abstract. The size of the node
/// is that of its fragments together, as far as it can be represented; fragments and score
/// are those given.
pub open spec fn records(
    plan: Plan,
    def: SymbolDefinition,
    path: Seq<char>,
    parts: Fragments,
    score: Score,
) -> bool {
    let node = plan.node_at(plan.index[def.symbol_id@]);
    let about = node.node_core();
    let whole = about.surface_fragment.context_size + match about.implementation_fragment {
        Some(fragment) => fragment.context_size as int,
        None => 0,
    };
    &&& plan.index.contains_key(def.symbol_id@)
    &&& plan.index[def.symbol_id@].ix < plan.nodes.len()
    &&& mirrors(node, def, path)
    &&& about.surface_fragment == parts.surface
    &&& about.implementation_fragment == parts.implementation
    &&& about.doc_score == score
    &&& about.is_external == def.is_external
    &&& about.context_size == if whole <= u32::MAX {
        whole
    } else {
        u32::MAX as int
    }
    &&& node matches NodeView::Function(n) ==> (n.is_interface_method <==> def.kind
        == SymbolKind::Function && def.details->Function_0.modifiers.is_abstract)
}

proof fn lemma_recorded<S: SizeFunction, D: DocumentationScorer>(
    size_function: S,
    doc_scorer: D,
    before: Plan,
    def: SymbolDefinition,
    path: Seq<char>,
    source: Seq<char>,
)
    requires
        facts::numbered(before),
        def.kind != SymbolKind::Type,
    ensures
        plan::add_internal(size_function, doc_scorer, before, def, path, source) matches
            Stage::Going(after) ==> records(
            after,
            def,
            path,
            fragments::fragments_of(
                def,
                source,
                size_function,
                plan::is_interface_method(def),
            ),
            plan::score_of(doc_scorer, def, path),
        ),
{
    let parts = fragments::fragments_of(
        def,
        source,
        size_function,
        plan::is_interface_method(def),
    );
    let core_view = plan::core_of(
        before.nodes.len() as u32,
        def,
        parts,
        plan::score_of(doc_scorer, def, path),
        def.is_external,
        path,
    );
    if let Stage::Going(after) = plan::add_internal(
        size_function,
        doc_scorer,
        before,
        def,
        path,
        source,
    ) {
        let node = fragments::node_of(core_view, def, plan::is_interface_method(def))->0;
        assert(after.node_at(after.index[def.symbol_id@]) == node);
        assert(node.node_core() == core_view);
    }
}

/// Another node, or a type, leaves what is recorded.
proof fn lemma_kept<S: SizeFunction, D: DocumentationScorer>(
    size_function: S,
    doc_scorer: D,
    before: Plan,
    other: SymbolDefinition,
    path: Seq<char>,
    source: Seq<char>,
    def: SymbolDefinition,
    file: Seq<char>,
    parts: Fragments,
    score: Score,
)
    requires
        facts::numbered(before),
        records(before, def, file, parts, score),
        other.symbol_id@ != def.symbol_id@,
    ensures
        plan::add_internal(size_function, doc_scorer, before, other, path, source) matches
            Stage::Going(after) ==> records(after, def, file, parts, score),
{
    if let Stage::Going(after) = plan::add_internal(
        size_function,
        doc_scorer,
        before,
        other,
        path,
        source,
    ) {
        if let SymbolDetails::Type(t) = other.details {
            let parts = fragments::fragments_of(
                other,
                source,
                size_function,
                plan::is_interface_method(other),
            );
            let info = fragments::type_info_of(
                other,
                parts.surface,
                plan::score_of(doc_scorer, other, path),
            );
            let registered = before.with_type(other.symbol_id@, info);
            let first = text::texts(t.implements@);
            facts::lemma_with_implementors(registered, first, other.symbol_id@);
            facts::lemma_with_implementors(
                registered.with_implementors(first, other.symbol_id@),
                text::texts(t.inherits@),
                other.symbol_id@,
            );
        }
        assert(after.index[def.symbol_id@] == before.index[def.symbol_id@]);
        assert(after.node_at(after.index[def.symbol_id@]) == before.node_at(
            before.index[def.symbol_id@],
        ));
    }
}

proof fn lemma_kept_by_document<S: SizeFunction, D: DocumentationScorer>(
    size_function: S,
    doc_scorer: D,
    stage: Stage,
    definitions: Seq<SymbolDefinition>,
    path: Seq<char>,
    source: Seq<char>,
    def: SymbolDefinition,
    file: Seq<char>,
    parts: Fragments,
    score: Score,
)
    requires
        plan::add_document(size_function, doc_scorer, stage, definitions, path, source) is Going,
        stage matches Stage::Going(before) ==> facts::numbered(before) && records(
            before,
            def,
            file,
            parts,
            score,
        ),
        forall|k: int|
            0 <= k < definitions.len() ==> (#[trigger] definitions[k]).symbol_id@
                != def.symbol_id@,
    ensures
        stage is Going,
        facts::numbered(
            plan::add_document(
                size_function,
                doc_scorer,
                stage,
                definitions,
                path,
                source,
            )->Going_0,
        ),
        records(
            plan::add_document(
                size_function,
                doc_scorer,
                stage,
                definitions,
                path,
                source,
            )->Going_0,
            def,
            file,
            parts,
            score,
        ),
    decreases definitions.len(),
{
    if definitions.len() > 0 {
        let rest = definitions.drop_last();
        assert(forall|k: int| 0 <= k < rest.len() ==> rest[k] == definitions[k]);
        lemma_kept_by_document(size_function, doc_scorer, stage, rest, path, source, def, file, parts, score);
        let middle = plan::add_document(
            size_function,
            doc_scorer,
            stage,
            rest,
            path,
            source,
        )->Going_0;
        let last = definitions.last();
        assert(definitions[definitions.len() - 1] == last);
        facts::lemma_add_internal(size_function, doc_scorer, middle, last, path, source);
        lemma_kept(size_function, doc_scorer, middle, last, path, source, def, file, parts, score);
    }
}

proof fn lemma_recorded_in_document<S: SizeFunction, D: DocumentationScorer>(
    size_function: S,
    doc_scorer: D,
    stage: Stage,
    definitions: Seq<SymbolDefinition>,
    path: Seq<char>,
    source: Seq<char>,
    k: int,
)
    requires
        plan::add_document(size_function, doc_scorer, stage, definitions, path, source) is Going,
        stage matches Stage::Going(before) ==> facts::numbered(before),
        naming::told_apart(definitions),
        0 <= k < definitions.len(),
        definitions[k].kind != SymbolKind::Type,
    ensures
        stage is Going,
        records(
            plan::add_document(
                size_function,
                doc_scorer,
                stage,
                definitions,
                path,
                source,
            )->Going_0,
            definitions[k],
            path,
            fragments::fragments_of(
                definitions[k],
                source,
                size_function,
                plan::is_interface_method(definitions[k]),
            ),
            plan::score_of(doc_scorer, definitions[k], path),
        ),
    decreases definitions.len(),
{
    let rest = definitions.drop_last();
    let last = definitions.last();
    assert(forall|i: int| 0 <= i < rest.len() ==> rest[i] == definitions[i]);
    assert(definitions[definitions.len() - 1] == last);
    facts::lemma_add_document(size_function, doc_scorer, stage, rest, path, source);
    let middle = plan::add_document(
        size_function,
        doc_scorer,
        stage,
        rest,
        path,
        source,
    )->Going_0;
    if k < rest.len() {
        assert(naming::told_apart(rest)) by {
            assert forall|i: int, j: int|
                #![trigger rest[i], rest[j]]
                0 <= i < j < rest.len() implies rest[i].symbol_id@ != rest[j].symbol_id@ by {
                assert(definitions[i].symbol_id@ != definitions[j].symbol_id@);
            }
        }
        lemma_recorded_in_document(size_function, doc_scorer, stage, rest, path, source, k);
        assert(definitions[k].symbol_id@ != definitions[definitions.len() - 1].symbol_id@);
        lemma_kept(
            size_function,
            doc_scorer,
            middle,
            last,
            path,
            source,
            definitions[k],
            path,
            fragments::fragments_of(
                definitions[k],
                source,
                size_function,
                plan::is_interface_method(definitions[k]),
            ),
            plan::score_of(doc_scorer, definitions[k], path),
        );
    } else {
        lemma_recorded(size_function, doc_scorer, middle, last, path, source);
    }
}

/// Where a definition of a document stands among all.
proof fn lemma_among_all(documents: Seq<DocumentSemantics>, d: int, k: int) -> (at: int)
    requires
        0 <= d < documents.len(),
        0 <= k < documents[d].definitions@.len(),
    ensures
        0 <= at < semantic::document_definitions(documents).len(),
        semantic::document_definitions(documents)[at] == documents[d].definitions@[k],
    decreases documents.len(),
{
    let rest = documents.drop_last();
    let earlier = semantic::document_definitions(rest);
    if d < rest.len() {
        let at = lemma_among_all(rest, d, k);
        assert(semantic::document_definitions(documents)[at] == earlier[at]);
        at
    } else {
        earlier.len() + k
    }
}

proof fn lemma_recorded_in_documents<S: SizeFunction, D: DocumentationScorer>(
    size_function: S,
    doc_scorer: D,
    documents: Seq<DocumentSemantics>,
    sources: Seq<Seq<char>>,
    d: int,
    k: int,
)
    requires
        plan::add_documents(size_function, doc_scorer, documents, sources) is Going,
        naming::told_apart(semantic::document_definitions(documents)),
        sources.len() == documents.len(),
        0 <= d < documents.len(),
        0 <= k < documents[d].definitions@.len(),
        documents[d].definitions@[k].kind != SymbolKind::Type,
    ensures
        records(
            plan::add_documents(size_function, doc_scorer, documents, sources)->Going_0,
            documents[d].definitions@[k],
            documents[d].relative_path@,
            fragments::fragments_of(
                documents[d].definitions@[k],
                sources[d],
                size_function,
                plan::is_interface_method(documents[d].definitions@[k]),
            ),
            plan::score_of(doc_scorer, documents[d].definitions@[k], documents[d].relative_path@),
        ),
    decreases documents.len(),
{
    let rest = documents.drop_last();
    let last = documents.last();
    let all = semantic::document_definitions(documents);
    let earlier = semantic::document_definitions(rest);
    let definitions = last.definitions@;
    let stage = plan::add_documents(size_function, doc_scorer, rest, sources.drop_last());
    assert(all =~= earlier + definitions);
    if stage is Going {
        facts::lemma_add_documents(size_function, doc_scorer, rest, sources.drop_last());
    }
    facts::lemma_add_document(
        size_function,
        doc_scorer,
        stage,
        definitions,
        last.relative_path@,
        sources.last(),
    );
    if d < rest.len() {
        let def = rest[d].definitions@[k];
        assert(naming::told_apart(earlier)) by {
            assert forall|i: int, j: int|
                #![trigger earlier[i], earlier[j]]
                0 <= i < j < earlier.len() implies earlier[i].symbol_id@
                != earlier[j].symbol_id@ by {
                assert(all[i] == earlier[i] && all[j] == earlier[j]);
            }
        }
        lemma_recorded_in_documents(
            size_function,
            doc_scorer,
            rest,
            sources.drop_last(),
            d,
            k,
        );
        let at = lemma_among_all(rest, d, k);
        assert forall|i: int| 0 <= i < definitions.len() implies (
        #[trigger] definitions[i]).symbol_id@ != def.symbol_id@ by {
            assert(all[at] == earlier[at]);
            assert(all[earlier.len() + i] == definitions[i]);
        }
        lemma_kept_by_document(
            size_function,
            doc_scorer,
            stage,
            definitions,
            last.relative_path@,
            sources.last(),
            def,
            rest[d].relative_path@,
            fragments::fragments_of(
                documents[d].definitions@[k],
                sources[d],
                size_function,
                plan::is_interface_method(documents[d].definitions@[k]),
            ),
            plan::score_of(doc_scorer, documents[d].definitions@[k], documents[d].relative_path@),
        );
    } else {
        assert(naming::told_apart(definitions)) by {
            assert forall|i: int, j: int|
                #![trigger definitions[i], definitions[j]]
                0 <= i < j < definitions.len() implies definitions[i].symbol_id@
                != definitions[j].symbol_id@ by {
                assert(all[earlier.len() + i] == definitions[i]);
                assert(all[earlier.len() + j] == definitions[j]);
            }
        }
        lemma_recorded_in_document(
            size_function,
            doc_scorer,
            stage,
            definitions,
            last.relative_path@,
            sources.last(),
            k,
        );
    }
}

proof fn lemma_kept_by_externals<S: SizeFunction, D: DocumentationScorer>(
    size_function: S,
    doc_scorer: D,
    stage: Stage,
    definitions: Seq<SymbolDefinition>,
    def: SymbolDefinition,
    file: Seq<char>,
    parts: Fragments,
    score: Score,
)
    requires
        plan::add_externals(size_function, doc_scorer, stage, definitions) is Going,
        stage matches Stage::Going(before) ==> facts::numbered(before) && records(
            before,
            def,
            file,
            parts,
            score,
        ),
    ensures
        stage is Going,
        facts::numbered(
            plan::add_externals(size_function, doc_scorer, stage, definitions)->Going_0,
        ),
        records(
            plan::add_externals(size_function, doc_scorer, stage, definitions)->Going_0,
            def,
            file,
            parts,
            score,
        ),
    decreases definitions.len(),
{
    if definitions.len() > 0 {
        let rest = definitions.drop_last();
        lemma_kept_by_externals(size_function, doc_scorer, stage, rest, def, file, parts, score);
        let middle = plan::add_externals(size_function, doc_scorer, stage, rest)->Going_0;
        let last = definitions.last();
        facts::lemma_add_external(size_function, doc_scorer, middle, last);
        let after = plan::add_externals(size_function, doc_scorer, stage, definitions)->Going_0;
        assert(after.index[def.symbol_id@] == middle.index[def.symbol_id@]);
        assert(after.node_at(after.index[def.symbol_id@]) == middle.node_at(
            middle.index[def.symbol_id@],
        ));
    }
}

/// In a graph that was built from a model whose symbols are told apart, the node of a
/// function or variable that a document defines shows what its definition says. Its
/// documentation is rated as one text, with the name and signature of what it documents,
/// and the extension of its file in lower case as the language.
pub proof fn law_nodes_show_their_definitions<S: SizeFunction, D: DocumentationScorer>(
    builder: GraphBuilder<S, D>,
    graph: ContextGraph,
    data: SemanticData,
    sources: Seq<Seq<char>>,
    d: int,
    k: int,
)
    requires
        builder.is_described(graph, data, sources),
        naming::told_apart(semantic::document_definitions(data.documents@)),
        0 <= d < data.documents@.len(),
        0 <= k < data.documents@[d].definitions@.len(),
        data.documents@[d].definitions@[k].kind != SymbolKind::Type,
        sources.len() == data.documents@.len(),
    ensures
        ({
            let def = data.documents@[d].definitions@[k];
            let path = data.documents@[d].relative_path@;
            let documentation = text::joined(
                def.documentation@.map_values(|part: String| part@),
                "\n\n"@,
            );
            records(
                plan::plan_of(graph),
                def,
                path,
                fragments::fragments_of(
                    def,
                    sources[d],
                    *builder.size_function,
                    def.kind == SymbolKind::Function && def.details is Function
                        && def.details->Function_0.modifiers.is_abstract,
                ),
                builder.doc_scorer.rating(
                    NodeInfoView {
                        node_type: if def.kind == SymbolKind::Function {
                            NodeType::Function
                        } else {
                            NodeType::Variable
                        },
                        name: def.name@,
                        signature: fragments::signature_text(def),
                        language: Some(text::lowercase_of(text::extension(path))),
                    },
                    if documentation.len() == 0 {
                        None
                    } else {
                        Some(documentation)
                    },
                ),
            )
        }),
{
    let size_function = *builder.size_function;
    let doc_scorer = *builder.doc_scorer;
    let def = data.documents@[d].definitions@[k];
    let file = data.documents@[d].relative_path@;
    let parts = fragments::fragments_of(
        def,
        sources[d],
        size_function,
        plan::is_interface_method(def),
    );
    let score = plan::score_of(doc_scorer, def, file);
    facts::lemma_stages(size_function, doc_scorer, data, sources);
    let s = facts::stages(size_function, doc_scorer, data, sources);
    let documented = plan::add_documents(size_function, doc_scorer, data.documents@, sources);
    if documented is Going {
        facts::lemma_add_documents(size_function, doc_scorer, data.documents@, sources);
        lemma_recorded_in_documents(
            size_function,
            doc_scorer,
            data.documents@,
            sources,
            d,
            k,
        );
    }
    lemma_kept_by_externals(
        size_function,
        doc_scorer,
        documented,
        data.external_symbols@,
        def,
        file,
        parts,
        score,
    );
    assert(records(s.allocated, def, file, parts, score));
    let i = s.full.index[def.symbol_id@].ix as int;
    assert(s.wiring.plan.nodes[i] == s.allocated.nodes[i]);
    assert(facts::retyped(s.wiring.plan.nodes[i], s.typed.nodes[i]));
    assert(s.full.nodes[i] == s.typed.nodes[i]);
    assert(records(s.full, def, file, parts, score));
    assert(text::texts(def.documentation@) =~= def.documentation@.map_values(
        |part: String| part@,
    ));
}

proof fn lemma_counted<A>(list: Seq<A>, condition: spec_fn(A) -> bool)
    ensures
        node::count_where(list, condition) == list.filter(condition).len(),
    decreases list.len(),
{
    reveal(Seq::filter);
    if list.len() > 0 {
        lemma_counted(list.drop_last(), condition);
    }
}

proof fn lemma_references(documents: Seq<DocumentSemantics>)
    ensures
        plan::reference_count(documents) == documents.fold_left(
            0int,
            |total: int, document: DocumentSemantics| total + document.references@.len(),
        ),
    decreases documents.len(),
{
    if documents.len() > 0 {
        lemma_references(documents.drop_last());
    }
}

/// A graph that was built counts the references of all documents, the definitions of
/// functions in documents, and those of them whose model tells surface spans apart.
pub proof fn law_coverage_counts_the_model<S: SizeFunction, D: DocumentationScorer>(
    builder: GraphBuilder<S, D>,
    graph: ContextGraph,
    data: SemanticData,
    sources: Seq<Seq<char>>,
)
    requires
        builder.is_described(graph, data, sources),
    ensures
        graph.coverage.total_references == data.documents@.fold_left(
            0int,
            |total: int, document: DocumentSemantics| total + document.references@.len(),
        ),
        graph.coverage.total_functions == semantic::document_definitions(data.documents@).filter(
            |def: SymbolDefinition| def.kind == SymbolKind::Function,
        ).len(),
        graph.coverage.functions_with_explicit_fragments == semantic::document_definitions(
            data.documents@,
        ).filter(
            |def: SymbolDefinition|
                def.details is Function && def.details->Function_0.surface_spans@.len() > 0,
        ).len(),
        graph.measurement_scope_id@ == data.project_root@,
{
    let definitions = semantic::document_definitions(data.documents@);
    let functions = |def: SymbolDefinition| plan::is_function_definition(def);
    let explicit = |def: SymbolDefinition| fragments::has_explicit_spans(def);
    lemma_references(data.documents@);
    lemma_counted(definitions, functions);
    lemma_counted(definitions, explicit);
    assert(functions =~= |def: SymbolDefinition| def.kind == SymbolKind::Function);
    assert(explicit =~= |def: SymbolDefinition|
        def.details is Function && def.details->Function_0.surface_spans@.len() > 0);
    let description = builder.described(data, sources)->Described_0;
    let allocated = plan::allocated(
        *builder.size_function,
        *builder.doc_scorer,
        data,
        sources,
    )->Going_0;
    assert(plan::connected(allocated, data) == plan::Outcome::Described(description));
}

/// An external symbol that is known already adds nothing. Any other function or variable
/// adds a node that shows its definition, is external, has no implementation, and is no
/// interface method.
pub proof fn law_external_symbols_are_added_once<S: SizeFunction, D: DocumentationScorer>(
    size_function: S,
    doc_scorer: D,
    before: Plan,
    def: SymbolDefinition,
    after: Plan,
)
    requires
        facts::numbered(before),
        plan::add_external(size_function, doc_scorer, before, def) == Stage::Going(after),
    ensures
        before.index.contains_key(def.symbol_id@) || before.types.contains_key(def.symbol_id@)
            ==> after == before,
        !before.index.contains_key(def.symbol_id@) && !before.types.contains_key(def.symbol_id@)
            && def.kind == SymbolKind::Type ==> after.types.contains_key(def.symbol_id@)
            && after.nodes == before.nodes,
        !before.index.contains_key(def.symbol_id@) && !before.types.contains_key(def.symbol_id@)
            && def.kind != SymbolKind::Type ==> {
            let node = after.nodes.last();
            &&& after.nodes.len() == before.nodes.len() + 1
            &&& after.index.contains_key(def.symbol_id@)
            &&& after.index[def.symbol_id@].ix == before.nodes.len()
            &&& mirrors(node, def, def.location.file_path@)
            &&& node.node_core().is_external
            &&& node.node_core().implementation_fragment is None
            &&& node.node_core().context_size == node.node_core().surface_fragment.context_size
            &&& node matches NodeView::Function(f) ==> !f.is_interface_method
        },
{
}

/// A type is registered, and counts as an implementor of each interface that it
/// implements and of each type that it inherits from.
pub proof fn law_types_implement_their_bases(
    before: Plan,
    def: SymbolDefinition,
    info: TypeInfoView,
    base: Seq<char>,
)
    requires
        def.details is Type,
    ensures
        ({
            let after = plan::add_type(before, def, info);
            let t = def.details->Type_0;
            let is_base = text::texts(t.implements@).contains(base) || text::texts(
                t.inherits@,
            ).contains(base);
            &&& after.types.contains_key(def.symbol_id@)
            &&& after.types[def.symbol_id@] == info
            &&& is_base ==> after.implementors.contains_key(base)
                && after.implementors[base].contains(def.symbol_id@)
            &&& !is_base ==> after.implementors.contains_key(base)
                == before.implementors.contains_key(base) && after.implementors[base]
                == before.implementors[base]
        }),
{
    let t = def.details->Type_0;
    let registered = before.with_type(def.symbol_id@, info);
    let first = text::texts(t.implements@);
    let second = text::texts(t.inherits@);
    let middle = registered.with_implementors(first, def.symbol_id@);
    facts::lemma_with_implementors(registered, first, def.symbol_id@);
    facts::lemma_with_implementors(middle, second, def.symbol_id@);
    lemma_implementors(registered, first, def.symbol_id@, base);
    lemma_implementors(middle, second, def.symbol_id@, base);
}

proof fn lemma_implementors(
    before: Plan,
    interfaces: Seq<Seq<char>>,
    symbol: Seq<char>,
    base: Seq<char>,
)
    ensures
        ({
            let after = before.with_implementors(interfaces, symbol);
            &&& interfaces.contains(base) ==> after.implementors.contains_key(base)
                && after.implementors[base].contains(symbol)
            &&& before.implementors.contains_key(base) && before.implementors[base].contains(
                symbol,
            ) ==> after.implementors.contains_key(base) && after.implementors[base].contains(
                symbol,
            )
            &&& !interfaces.contains(base) ==> after.implementors.contains_key(base)
                == before.implementors.contains_key(base) && after.implementors[base]
                == before.implementors[base]
        }),
    decreases interfaces.len(),
{
    if interfaces.len() > 0 {
        let rest = interfaces.drop_last();
        let middle = before.with_implementors(rest, symbol);
        let after = before.with_implementors(interfaces, symbol);
        lemma_implementors(before, rest, symbol, base);
        assert(interfaces[interfaces.len() - 1] == interfaces.last());
        if interfaces.contains(base) && interfaces.last() != base {
            let k = choose|k: int| 0 <= k < interfaces.len() && interfaces[k] == base;
            assert(rest[k] == base);
        }
        if rest.contains(base) {
            let k = choose|k: int| 0 <= k < rest.len() && rest[k] == base;
            assert(interfaces[k] == base);
        }
        if interfaces.last() == base {
            let list = after.implementors[base];
            assert(list.last() == symbol);
            assert(list[list.len() - 1] == symbol);
        }
    }
}

} // verus!
