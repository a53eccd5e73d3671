//! Where calls of types lead in a graph that was built.

use crate::domain::digraph::Link;
use crate::domain::edge::EdgeKind;
use crate::domain::facts;
use crate::domain::node::NodeView;
use crate::domain::plan;
use crate::domain::plan::{Plan, Recovery, Resolution, Wiring, WiringStage};
use crate::domain::policy::{DocumentationScorer, SizeFunction};
use crate::domain::semantic;
use crate::domain::semantic::{
    DocumentSemantics, ReferenceRole, SemanticData, SymbolDefinition, SymbolDetails, SymbolKind,
    SymbolReference,
};
use crate::domain::text;
use crate::domain::type_registry::TypeInfoView;
use vstd::prelude::*;

verus! {

/// Whether a definition is that of the initializer of a registered type: a function by the
/// name of `__init__` that the type encloses, and that is a node.
pub open spec fn initializes(graph: Plan, def: SymbolDefinition, type_id: Seq<char>) -> bool {
    &&& def.kind == SymbolKind::Function
    &&& def.name@ == "__init__"@
    &&& def.enclosing_symbol is Some
    &&& def.enclosing_symbol->0@ == type_id
    &&& graph.types.contains_key(type_id)
    &&& graph.index.contains_key(def.symbol_id@)
}

proof fn lemma_initializer(
    graph: Plan,
    definitions: Seq<SymbolDefinition>,
    type_id: Seq<char>,
    d: int,
)
    requires
        0 <= d < definitions.len(),
        initializes(graph, definitions[d], type_id),
        forall|e: int|
            d < e < definitions.len() ==> !initializes(
                graph,
                #[trigger] definitions[e],
                type_id,
            ),
    ensures
        plan::initializers(graph, definitions).contains_key(type_id),
        plan::initializers(graph, definitions)[type_id] == definitions[d].symbol_id@,
    decreases definitions.len(),
{
    let rest = definitions.drop_last();
    let last = definitions.last();
    assert(definitions[definitions.len() - 1] == last);
    if d < rest.len() {
        assert(forall|e: int| 0 <= e < rest.len() ==> rest[e] == definitions[e]);
        lemma_initializer(graph, rest, type_id, d);
        assert(!initializes(graph, definitions[definitions.len() - 1], type_id));
    }
}

/// Whether a call of a type occurs in a node: it is known where it occurs, and its target
/// is no node and enclosed by none.
spec fn calls_type(
    reference: SymbolReference,
    graph: Plan,
    enclosing: Map<Seq<char>, Seq<char>>,
    source: Seq<char>,
    type_id: Seq<char>,
) -> bool {
    &&& reference.role == ReferenceRole::Call
    &&& reference.target_symbol is Some
    &&& reference.target_symbol->0@ == type_id
    &&& plan::resolve(type_id, graph.index, enclosing) == Resolution::Nothing
    &&& plan::resolve(reference.enclosing_symbol@, graph.index, enclosing) == Resolution::Found(
        source,
    )
}

proof fn lemma_call_in_references(
    stage: WiringStage,
    references: Seq<SymbolReference>,
    enclosing: Map<Seq<char>, Seq<char>>,
    inits: Map<Seq<char>, Seq<char>>,
    j: int,
    source: Seq<char>,
    type_id: Seq<char>,
)
    requires
        plan::wire_references(stage, references, enclosing, inits) is Going,
        stage is Going,
        0 <= j < references.len(),
        calls_type(references[j], stage->Going_0.plan, enclosing, source, type_id),
        inits.contains_key(type_id),
        stage->Going_0.plan.index.contains_key(inits[type_id]),
    ensures
        ({
            let before = stage->Going_0.plan;
            let after = plan::wire_references(stage, references, enclosing, inits)->Going_0.plan;
            facts::has_edge_for(
                after,
                Some(
                    Link {
                        source: before.index[source],
                        target: before.index[inits[type_id]],
                        kind: EdgeKind::Call,
                    },
                ),
            )
        }),
    decreases references.len(),
{
    let rest = references.drop_last();
    let before = stage->Going_0.plan;
    let edge = Link {
        source: before.index[source],
        target: before.index[inits[type_id]],
        kind: EdgeKind::Call,
    };
    facts::lemma_wire_references(stage, rest, enclosing, inits);
    let middle = plan::wire_references(stage, rest, enclosing, inits)->Going_0;
    let after = plan::wire_references(stage, references, enclosing, inits)->Going_0;
    facts::lemma_with_reference(middle, references.last(), enclosing, inits);
    if j < rest.len() {
        assert(rest[j] == references[j]);
        lemma_call_in_references(stage, rest, enclosing, inits, j, source, type_id);
        if edge.source != edge.target {
            facts::lemma_prefix_contains(middle.plan.links, after.plan.links, edge);
        }
    } else {
        assert(references[j] == references.last());
        facts::lemma_with_link(middle.plan, edge.source, edge.target, EdgeKind::Call);
    }
}

proof fn lemma_call_in_documents(
    stage: WiringStage,
    documents: Seq<DocumentSemantics>,
    enclosing: Map<Seq<char>, Seq<char>>,
    inits: Map<Seq<char>, Seq<char>>,
    i: int,
    j: int,
    source: Seq<char>,
    type_id: Seq<char>,
)
    requires
        plan::wire_documents(stage, documents, enclosing, inits) is Going,
        stage is Going,
        0 <= i < documents.len(),
        0 <= j < documents[i].references@.len(),
        calls_type(
            documents[i].references@[j],
            stage->Going_0.plan,
            enclosing,
            source,
            type_id,
        ),
        inits.contains_key(type_id),
        stage->Going_0.plan.index.contains_key(inits[type_id]),
    ensures
        ({
            let before = stage->Going_0.plan;
            let after = plan::wire_documents(stage, documents, enclosing, inits)->Going_0.plan;
            facts::has_edge_for(
                after,
                Some(
                    Link {
                        source: before.index[source],
                        target: before.index[inits[type_id]],
                        kind: EdgeKind::Call,
                    },
                ),
            )
        }),
    decreases documents.len(),
{
    let rest = documents.drop_last();
    let before = stage->Going_0.plan;
    let edge = Link {
        source: before.index[source],
        target: before.index[inits[type_id]],
        kind: EdgeKind::Call,
    };
    let middle_stage = plan::wire_documents(stage, rest, enclosing, inits);
    let references = documents.last().references@;
    facts::lemma_wire_references(middle_stage, references, enclosing, inits);
    facts::lemma_wire_documents(stage, rest, enclosing, inits);
    let middle = middle_stage->Going_0;
    let after = plan::wire_documents(stage, documents, enclosing, inits)->Going_0;
    if i < rest.len() {
        assert(rest[i] == documents[i]);
        lemma_call_in_documents(stage, rest, enclosing, inits, i, j, source, type_id);
        if edge.source != edge.target {
            facts::lemma_prefix_contains(middle.plan.links, after.plan.links, edge);
        }
    } else {
        assert(documents[i] == documents.last());
        lemma_call_in_references(
            middle_stage,
            references,
            enclosing,
            inits,
            j,
            source,
            type_id,
        );
    }
}

/// In the graph that a model describes, a call whose target is a type, and neither a node
/// nor enclosed by one, leads from the node in which it occurs to the initializer of the
/// type. Of several initializers the last counts.
pub proof fn law_calls_of_types_lead_to_initializers<S: SizeFunction, D: DocumentationScorer>(
    size_function: S,
    doc_scorer: D,
    data: SemanticData,
    sources: Seq<Seq<char>>,
    i: int,
    j: int,
    source: Seq<char>,
    d: int,
)
    requires
        plan::described(size_function, doc_scorer, data, sources) is Described,
        0 <= i < data.documents@.len(),
        0 <= j < data.documents@[i].references@.len(),
        0 <= d < semantic::document_definitions(data.documents@).len(),
        ({
            let graph = plan::described(
                size_function,
                doc_scorer,
                data,
                sources,
            )->Described_0.plan;
            let definitions = semantic::document_definitions(data.documents@);
            let enclosing = semantic::enclosing_of(data.definitions());
            let reference = data.documents@[i].references@[j];
            let type_id = reference.target_symbol->0@;
            &&& reference.role == ReferenceRole::Call
            &&& reference.target_symbol is Some
            &&& plan::resolve(type_id, graph.index, enclosing) == Resolution::Nothing
            &&& plan::resolve(reference.enclosing_symbol@, graph.index, enclosing)
                == Resolution::Found(source)
            &&& initializes(graph, definitions[d], type_id)
            &&& forall|e: int|
                d < e < definitions.len() ==> !initializes(
                    graph,
                    #[trigger] definitions[e],
                    type_id,
                )
        }),
    ensures
        ({
            let graph = plan::described(
                size_function,
                doc_scorer,
                data,
                sources,
            )->Described_0.plan;
            let initializer = semantic::document_definitions(data.documents@)[d].symbol_id@;
            let edge = Link {
                source: graph.index[source],
                target: graph.index[initializer],
                kind: EdgeKind::Call,
            };
            edge.source != edge.target ==> graph.links.contains(edge)
        }),
{
    facts::lemma_stages(size_function, doc_scorer, data, sources);
    let s = facts::stages(size_function, doc_scorer, data, sources);
    let definitions = semantic::document_definitions(data.documents@);
    let enclosing = semantic::enclosing_of(data.definitions());
    let reference = data.documents@[i].references@[j];
    let type_id = reference.target_symbol->0@;
    let inits = plan::initializers(s.allocated, definitions);
    let start = WiringStage::Going(
        Wiring {
            plan: s.allocated,
            open_calls: Seq::empty(),
            assigned: Seq::empty(),
            called: Map::empty(),
        },
    );
    assert(initializes(s.allocated, definitions[d], type_id));
    assert forall|e: int| d < e < definitions.len() implies !initializes(
        s.allocated,
        #[trigger] definitions[e],
        type_id,
    ) by {
        assert(!initializes(s.full, definitions[e], type_id));
    }
    lemma_initializer(s.allocated, definitions, type_id, d);
    lemma_call_in_documents(
        start,
        data.documents@,
        enclosing,
        inits,
        i,
        j,
        source,
        type_id,
    );
    let edge = Link {
        source: s.full.index[source],
        target: s.full.index[definitions[d].symbol_id@],
        kind: EdgeKind::Call,
    };
    if edge.source != edge.target {
        assert(s.wiring.plan.links.contains(edge));
        facts::lemma_prefix_contains(s.typed.links, s.full.links, edge);
    }
}

/// A symbol is enclosed by what the last of its definitions says that names something. One
/// whose definitions name nothing is not enclosed.
pub proof fn law_last_definition_encloses(
    definitions: Seq<SymbolDefinition>,
    symbol: Seq<char>,
    d: int,
)
    requires
        -1 <= d < definitions.len(),
        d >= 0 ==> definitions[d].symbol_id@ == symbol && definitions[d].enclosing_symbol is Some,
        forall|e: int|
            d < e < definitions.len() ==> (#[trigger] definitions[e]).symbol_id@ != symbol
                || definitions[e].enclosing_symbol is None,
    ensures
        d < 0 ==> !semantic::enclosing_of(definitions).contains_key(symbol),
        d >= 0 ==> semantic::enclosing_of(definitions).contains_key(symbol)
            && semantic::enclosing_of(definitions)[symbol] == definitions[d].enclosing_symbol->0@,
    decreases definitions.len(),
{
    if definitions.len() > 0 {
        let rest = definitions.drop_last();
        assert(definitions[definitions.len() - 1] == definitions.last());
        if d < rest.len() {
            assert(forall|e: int| 0 <= e < rest.len() ==> rest[e] == definitions[e]);
            law_last_definition_encloses(rest, symbol, d);
        }
    }
}

/// A variable without a type gets the first return type of an external function whose
/// result it is assigned, if that type is registered. Nothing else changes, and in no
/// other case does anything.
pub proof fn law_external_results_give_types(
    before: Plan,
    variable: Seq<char>,
    function: Seq<char>,
)
    requires
        facts::index_valid(before),
        before.index.contains_key(variable),
        before.index.contains_key(function),
    ensures
        ({
            let after = plan::with_returned_type(before, variable, function);
            let at = before.index[variable].ix as int;
            match (before.node_at(before.index[variable]), before.node_at(before.index[function])) {
                (NodeView::Variable(v), NodeView::Function(f)) => if v.var_type is None
                    && f.core.is_external && f.return_types.len() > 0
                    && before.types.contains_key(f.return_types[0]) {
                    &&& after.nodes[at] matches NodeView::Variable(w) && w.var_type == Some(
                        f.return_types[0],
                    )
                    &&& forall|i: int|
                        0 <= i < before.nodes.len() && i != at ==> #[trigger] after.nodes[i]
                            == before.nodes[i]
                } else {
                    after == before
                },
                _ => after == before,
            }
        }),
{
}

/// A definition gives a function those of its return types that are registered, behind
/// the types that it has, and a variable its type if that is registered.
pub proof fn law_definitions_give_registered_types(
    node: NodeView,
    def: SymbolDefinition,
    types: Map<Seq<char>, TypeInfoView>,
)
    ensures
        ({
            let after = plan::typed_node(node, def, types);
            match (def.details, node) {
                (SymbolDetails::Function(details), NodeView::Function(f)) => after matches
                    NodeView::Function(g) && g.return_types == f.return_types
                    + details.return_types@.map_values(|id: String| id@).filter(
                    |id: Seq<char>| types.contains_key(id),
                ),
                (SymbolDetails::Variable(details), NodeView::Variable(v)) => after matches
                    NodeView::Variable(w) && w.var_type == if details.var_type is Some
                    && types.contains_key(details.var_type->0@) {
                    Some(details.var_type->0@)
                } else {
                    v.var_type
                },
                _ => after == node,
            }
        }),
{
    if let SymbolDetails::Function(details) = def.details {
        assert(text::texts(details.return_types@) =~= details.return_types@.map_values(
            |id: String| id@,
        ));
        lemma_registered(text::texts(details.return_types@), types);
    }
}

proof fn lemma_registered(ids: Seq<Seq<char>>, types: Map<Seq<char>, TypeInfoView>)
    ensures
        plan::registered(ids, types) == ids.filter(|id: Seq<char>| types.contains_key(id)),
    decreases ids.len(),
{
    reveal(Seq::filter);
    if ids.len() > 0 {
        lemma_registered(ids.drop_last(), types);
    }
}

/// Whether the symbol at a place names a method of a type, by its name.
pub open spec fn is_method_at(graph: Plan, i: int, type_id: Seq<char>, name: Seq<char>) -> bool {
    graph.node_at(graph.index[graph.symbols[i]]) matches NodeView::Function(f) && f.core.scope
        == Some(type_id) && f.core.name == name
}

/// A call of a method on a variable with a type leads to the first of the symbols that
/// names a method of that type by that name, and stays open where there is none.
pub proof fn law_calls_on_variables_lead_to_methods(
    graph: Plan,
    reference: SymbolReference,
    enclosing: Map<Seq<char>, Seq<char>>,
    variable: Seq<char>,
    type_id: Seq<char>,
    i: int,
)
    requires
        reference.receiver is Some,
        reference.method_name is Some,
        plan::resolve(reference.receiver->0@, graph.index, enclosing) == Resolution::Found(
            variable,
        ),
        graph.node_at(graph.index[variable]) matches NodeView::Variable(v) && v.var_type == Some(
            type_id,
        ),
        0 <= i <= graph.symbols.len(),
        i < graph.symbols.len() ==> is_method_at(graph, i, type_id, reference.method_name->0@),
        forall|j: int|
            0 <= j < i ==> !#[trigger] is_method_at(
                graph,
                j,
                type_id,
                reference.method_name->0@,
            ),
    ensures
        i < graph.symbols.len() ==> plan::recovered(graph, reference, enclosing)
            == Recovery::Target(graph.index[graph.symbols[i]]),
        i == graph.symbols.len() ==> plan::recovered(graph, reference, enclosing)
            == Recovery::Unknown,
{
    lemma_first_method(
        graph,
        graph.symbols.len() as int,
        type_id,
        reference.method_name->0@,
        i,
    );
    assert(graph.symbols.take(graph.symbols.len() as int) =~= graph.symbols);
}

proof fn lemma_first_method(
    graph: Plan,
    end: int,
    type_id: Seq<char>,
    name: Seq<char>,
    i: int,
)
    requires
        0 <= end <= graph.symbols.len(),
        0 <= i,
        i < end ==> is_method_at(graph, i, type_id, name),
        forall|j: int| 0 <= j < i && j < end ==> !#[trigger] is_method_at(graph, j, type_id, name),
    ensures
        ({
            let r = plan::methods_named(graph, graph.symbols.take(end), type_id, name);
            if i < end {
                r.len() > 0 && r[0] == graph.index[graph.symbols[i]]
            } else {
                r.len() == 0
            }
        }),
    decreases end,
{
    if end > 0 {
        let all = graph.symbols.take(end);
        assert(all.drop_last() =~= graph.symbols.take(end - 1));
        assert(all.last() == graph.symbols[end - 1]);
        lemma_first_method(graph, end - 1, type_id, name, i);
        if i >= end {
            assert(!is_method_at(graph, end - 1, type_id, name));
        } else if i == end - 1 {
            assert(is_method_at(graph, i, type_id, name));
        }
    }
}

} // verus!
