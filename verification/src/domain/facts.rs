//! What a graph that was built says of the model it was built from: every definition
//! is a node or a type, and every reference that can be resolved is an edge.

use crate::domain::digraph::Link;
use crate::domain::edge::EdgeKind;
use crate::domain::graph::NodeIndex;
use crate::domain::node::{FunctionView, NodeView, VariableView};
use crate::domain::plan;
use crate::domain::plan::{OpenCall, Plan, Recovery, Resolution, Stage, Wiring, WiringStage};
use crate::domain::policy::{DocumentationScorer, SizeFunction};
use crate::domain::semantic;
use crate::domain::semantic::{
    DocumentSemantics, ReferenceRole, SemanticData, SymbolDefinition, SymbolKind, SymbolReference,
};
use vstd::prelude::*;

verus! {

/// Whether one plan is another with more edges.
pub open spec fn adds_links(before: Plan, after: Plan) -> bool {
    &&& before.links.is_prefix_of(after.links)
    &&& after.nodes == before.nodes
    &&& after.symbols == before.symbols
    &&& after.index == before.index
    &&& after.type_ids == before.type_ids
    &&& after.types == before.types
    &&& after.implementors == before.implementors
}

/// The edge that a reference stands for, if both its ends are nodes.
pub open spec fn link_of(
    reference: SymbolReference,
    index: Map<Seq<char>, NodeIndex>,
    enclosing: Map<Seq<char>, Seq<char>>,
) -> Option<Link> {
    match (
        plan::resolve(reference.enclosing_symbol@, index, enclosing),
        reference.target_symbol,
    ) {
        (Resolution::Found(source), Some(symbol)) => match plan::resolve(
            symbol@,
            index,
            enclosing,
        ) {
            Resolution::Found(target) => Some(
                Link {
                    source: index[source],
                    target: index[target],
                    kind: match reference.role {
                        ReferenceRole::Call => EdgeKind::Call,
                        ReferenceRole::Read => EdgeKind::Read,
                        ReferenceRole::Write => EdgeKind::Write,
                        ReferenceRole::Decorate => EdgeKind::Annotates,
                    },
                },
            ),
            _ => None,
        },
        _ => None,
    }
}

/// Whether a plan has an edge, unless the edge would lead back to where it starts.
pub open spec fn has_edge_for(plan: Plan, link: Option<Link>) -> bool {
    link matches Some(edge) ==> edge.source != edge.target ==> plan.links.contains(edge)
}

pub(crate) proof fn lemma_prefix_contains(a: Seq<Link>, b: Seq<Link>, link: Link)
    requires
        a.is_prefix_of(b),
        a.contains(link),
    ensures
        b.contains(link),
{
    let i = choose|i: int| 0 <= i < a.len() && a[i] == link;
    assert(b.subrange(0, a.len() as int)[i] == link);
    assert(b[i] == link);
}

pub(crate) proof fn lemma_with_link(before: Plan, source: NodeIndex, target: NodeIndex, kind: EdgeKind)
    ensures
        before.with_link(source, target, kind) matches Stage::Going(after) ==> adds_links(
            before,
            after,
        ) && has_edge_for(after, Some(Link { source, target, kind })),
{
    if source != target && before.links.len() < u32::MAX {
        let link = Link { source, target, kind };
        let after = before.links.push(link);
        assert(after[before.links.len() as int] == link);
    }
}

pub(crate) proof fn lemma_with_reference(
    wiring: Wiring,
    reference: SymbolReference,
    enclosing: Map<Seq<char>, Seq<char>>,
    inits: Map<Seq<char>, Seq<char>>,
)
    ensures
        wiring.with_reference(reference, enclosing, inits) matches WiringStage::Going(after)
            ==> adds_links(wiring.plan, after.plan) && has_edge_for(
            after.plan,
            link_of(reference, wiring.plan.index, enclosing),
        ),
{
    let index = wiring.plan.index;
    let source = plan::resolve(reference.enclosing_symbol@, index, enclosing);
    let target = match reference.target_symbol {
        Some(symbol) => plan::resolve(symbol@, index, enclosing),
        None => Resolution::Nothing,
    };
    if let Resolution::Found(symbol) = source {
        let kind = match reference.role {
            ReferenceRole::Call => EdgeKind::Call,
            ReferenceRole::Read => EdgeKind::Read,
            ReferenceRole::Write => EdgeKind::Write,
            ReferenceRole::Decorate => EdgeKind::Annotates,
        };
        if let Resolution::Found(target_symbol) = target {
            lemma_with_link(wiring.plan, index[symbol], index[target_symbol], kind);
        }
        if reference.role == ReferenceRole::Call {
            if let Some(function) = plan::callee(reference, target, index, inits) {
                lemma_with_link(wiring.plan, index[symbol], index[function], EdgeKind::Call);
            }
        }
    }
}

pub(crate) proof fn lemma_wire_references(
    stage: WiringStage,
    references: Seq<SymbolReference>,
    enclosing: Map<Seq<char>, Seq<char>>,
    inits: Map<Seq<char>, Seq<char>>,
)
    requires
        plan::wire_references(stage, references, enclosing, inits) is Going,
    ensures
        stage is Going,
        ({
            let before = stage->Going_0;
            let after = plan::wire_references(stage, references, enclosing, inits)->Going_0;
            &&& adds_links(before.plan, after.plan)
            &&& forall|j: int|
                0 <= j < references.len() ==> has_edge_for(
                    after.plan,
                    link_of(#[trigger] references[j], before.plan.index, enclosing),
                )
        }),
    decreases references.len(),
{
    if references.len() > 0 {
        let rest = references.drop_last();
        lemma_wire_references(stage, rest, enclosing, inits);
        let middle = plan::wire_references(stage, rest, enclosing, inits)->Going_0;
        let after = plan::wire_references(stage, references, enclosing, inits)->Going_0;
        let before = stage->Going_0;
        lemma_with_reference(middle, references.last(), enclosing, inits);
        assert forall|j: int| 0 <= j < references.len() implies has_edge_for(
            after.plan,
            link_of(#[trigger] references[j], before.plan.index, enclosing),
        ) by {
            if j < rest.len() {
                assert(rest[j] == references[j]);
                if let Some(edge) = link_of(references[j], before.plan.index, enclosing) {
                    if edge.source != edge.target {
                        lemma_prefix_contains(middle.plan.links, after.plan.links, edge);
                    }
                }
            } else {
                assert(references[j] == references.last());
            }
        }
    }
}

pub(crate) proof fn lemma_wire_documents(
    stage: WiringStage,
    documents: Seq<DocumentSemantics>,
    enclosing: Map<Seq<char>, Seq<char>>,
    inits: Map<Seq<char>, Seq<char>>,
)
    requires
        plan::wire_documents(stage, documents, enclosing, inits) is Going,
    ensures
        stage is Going,
        ({
            let before = stage->Going_0;
            let after = plan::wire_documents(stage, documents, enclosing, inits)->Going_0;
            &&& adds_links(before.plan, after.plan)
            &&& forall|i: int, j: int|
                0 <= i < documents.len() && 0 <= j < documents[i].references@.len()
                    ==> has_edge_for(
                    after.plan,
                    link_of(
                        #[trigger] documents[i].references@[j],
                        before.plan.index,
                        enclosing,
                    ),
                )
        }),
    decreases documents.len(),
{
    if documents.len() > 0 {
        let rest = documents.drop_last();
        let middle_stage = plan::wire_documents(stage, rest, enclosing, inits);
        let references = documents.last().references@;
        lemma_wire_references(middle_stage, references, enclosing, inits);
        lemma_wire_documents(stage, rest, enclosing, inits);
        let before = stage->Going_0;
        let middle = middle_stage->Going_0;
        let after = plan::wire_documents(stage, documents, enclosing, inits)->Going_0;
        assert forall|i: int, j: int|
            0 <= i < documents.len() && 0 <= j < documents[i].references@.len() implies has_edge_for(
            after.plan,
            link_of(#[trigger] documents[i].references@[j], before.plan.index, enclosing),
        ) by {
            if i < rest.len() {
                assert(rest[i] == documents[i]);
                assert(has_edge_for(
                    middle.plan,
                    link_of(rest[i].references@[j], before.plan.index, enclosing),
                ));
                if let Some(edge) = link_of(
                    documents[i].references@[j],
                    before.plan.index,
                    enclosing,
                ) {
                    if edge.source != edge.target {
                        lemma_prefix_contains(middle.plan.links, after.plan.links, edge);
                    }
                }
            } else {
                assert(documents[i] == documents.last());
                assert(has_edge_for(
                    after.plan,
                    link_of(references[j], middle.plan.index, enclosing),
                ));
            }
        }
    }
}

/// Whether a node is another with more types: a function with more return types, or a
/// variable with another type.
pub open spec fn retyped(before: NodeView, after: NodeView) -> bool {
    match (before, after) {
        (NodeView::Function(f), NodeView::Function(g)) => {
            &&& g == FunctionView { return_types: g.return_types, ..f }
            &&& f.return_types.len() <= g.return_types.len()
            &&& forall|i: int|
                0 <= i < f.return_types.len() ==> #[trigger] g.return_types[i] == f.return_types[i]
        },
        (NodeView::Variable(v), NodeView::Variable(w)) => {
            &&& w == VariableView { var_type: w.var_type, ..v }
            &&& v.var_type is Some ==> w.var_type is Some
        },
        _ => false,
    }
}

/// Whether one plan is another with other types of its nodes.
pub open spec fn retypes(before: Plan, after: Plan) -> bool {
    &&& after.links == before.links
    &&& after.nodes.len() == before.nodes.len()
    &&& forall|i: int|
        0 <= i < before.nodes.len() ==> (#[trigger] after.nodes[i]).node_core()
            == before.nodes[i].node_core()
    &&& forall|i: int|
        0 <= i < before.nodes.len() ==> retyped(before.nodes[i], #[trigger] after.nodes[i])
    &&& after.symbols == before.symbols
    &&& after.index == before.index
    &&& after.type_ids == before.type_ids
    &&& after.types == before.types
    &&& after.implementors == before.implementors
}

/// Whether symbols name nodes of the plan.
pub open spec fn index_valid(plan: Plan) -> bool {
    forall|symbol: Seq<char>| #[trigger]
        plan.index.contains_key(symbol) ==> plan.index[symbol].ix < plan.nodes.len()
}

proof fn lemma_with_types(before: Plan, definitions: Seq<SymbolDefinition>)
    requires
        index_valid(before),
    ensures
        retypes(before, plan::with_types(before, definitions)),
    decreases definitions.len(),
{
    if definitions.len() > 0 {
        lemma_with_types(before, definitions.drop_last());
    }
}

proof fn lemma_with_returned_types(
    before: Plan,
    assigned: Seq<Seq<char>>,
    called: Map<Seq<char>, Seq<char>>,
)
    requires
        index_valid(before),
    ensures
        retypes(before, plan::with_returned_types(before, assigned, called)),
    decreases assigned.len(),
{
    if assigned.len() > 0 {
        lemma_with_returned_types(before, assigned.drop_last(), called);
    }
}

proof fn lemma_link_each(stage: Stage, source: NodeIndex, targets: Seq<NodeIndex>, kind: EdgeKind)
    requires
        plan::link_each(stage, source, targets, kind) is Going,
    ensures
        stage is Going,
        ({
            let after = plan::link_each(stage, source, targets, kind)->Going_0;
            &&& adds_links(stage->Going_0, after)
            &&& forall|k: int|
                0 <= k < targets.len() ==> has_edge_for(
                    after,
                    Some(Link { source, target: #[trigger] targets[k], kind }),
                )
        }),
    decreases targets.len(),
{
    if targets.len() > 0 {
        let rest = targets.drop_last();
        lemma_link_each(stage, source, rest, kind);
        let middle = plan::link_each(stage, source, rest, kind)->Going_0;
        let after = plan::link_each(stage, source, targets, kind)->Going_0;
        lemma_with_link(middle, source, targets.last(), kind);
        assert forall|k: int| 0 <= k < targets.len() implies has_edge_for(
            after,
            Some(Link { source, target: #[trigger] targets[k], kind }),
        ) by {
            if k < rest.len() {
                assert(rest[k] == targets[k]);
                if source != targets[k] {
                    lemma_prefix_contains(
                        middle.links,
                        after.links,
                        Link { source, target: targets[k], kind },
                    );
                }
            } else {
                assert(targets[k] == targets.last());
            }
        }
    }
}

/// Whether a method of one type overrides another by name: the second is a method of
/// the type with that name.
pub open spec fn is_override(
    plan: Plan,
    concrete: Seq<char>,
    name: Seq<char>,
    target: NodeIndex,
) -> bool {
    plan::methods(plan, concrete, name).contains(target)
}

proof fn lemma_link_implementations(
    stage: Stage,
    typed: Plan,
    source: NodeIndex,
    name: Seq<char>,
    concrete: Seq<Seq<char>>,
)
    requires
        plan::link_implementations(stage, typed, source, name, concrete) is Going,
    ensures
        stage is Going,
        ({
            let after = plan::link_implementations(stage, typed, source, name, concrete)->Going_0;
            &&& adds_links(stage->Going_0, after)
            &&& forall|k: int, target: NodeIndex|
                0 <= k < concrete.len() && #[trigger] is_override(
                    typed,
                    concrete[k],
                    name,
                    target,
                ) ==> has_edge_for(
                    after,
                    Some(Link { source, target, kind: EdgeKind::OverriddenBy }),
                )
        }),
    decreases concrete.len(),
{
    if concrete.len() > 0 {
        let rest = concrete.drop_last();
        let middle_stage = plan::link_implementations(stage, typed, source, name, rest);
        let targets = plan::methods(typed, concrete.last(), name);
        lemma_link_each(middle_stage, source, targets, EdgeKind::OverriddenBy);
        lemma_link_implementations(stage, typed, source, name, rest);
        let middle = middle_stage->Going_0;
        let after = plan::link_implementations(stage, typed, source, name, concrete)->Going_0;
        assert forall|k: int, target: NodeIndex|
            0 <= k < concrete.len() && #[trigger] is_override(
                typed,
                concrete[k],
                name,
                target,
            ) implies has_edge_for(
            after,
            Some(Link { source, target, kind: EdgeKind::OverriddenBy }),
        ) by {
            let edge = Link { source, target, kind: EdgeKind::OverriddenBy };
            if k < rest.len() {
                assert(is_override(typed, rest[k], name, target));
                if source != target {
                    lemma_prefix_contains(middle.links, after.links, edge);
                }
            } else {
                assert(concrete[k] == concrete.last());
                let i = choose|i: int| 0 <= i < targets.len() && targets[i] == target;
                assert(has_edge_for(
                    after,
                    Some(Link { source, target: targets[i], kind: EdgeKind::OverriddenBy }),
                ));
            }
        }
    }
}

/// Whether a symbol names a method of an interface, and a type implements it.
pub open spec fn implements_method(plan: Plan, symbol: Seq<char>, concrete: Seq<char>) -> bool {
    match plan.node_at(plan.index[symbol]) {
        NodeView::Function(f) => f.is_interface_method && (f.core.scope matches Some(scope)
            && plan.implementors.contains_key(scope) && plan.implementors[scope].contains(
            concrete,
        )),
        NodeView::Variable(_) => false,
    }
}

/// Whether the methods of a type that implement a method of an interface are linked
/// from it.
pub open spec fn overrides_linked(
    typed: Plan,
    after: Plan,
    symbol: Seq<char>,
    concrete: Seq<char>,
) -> bool {
    implements_method(typed, symbol, concrete) ==> forall|target: NodeIndex| #[trigger]
        is_override(typed, concrete, typed.node_at(typed.index[symbol]).node_core().name, target)
            ==> has_edge_for(
            after,
            Some(
                Link { source: typed.index[symbol], target, kind: EdgeKind::OverriddenBy },
            ),
        )
}

proof fn lemma_link_overrides(stage: Stage, typed: Plan, symbols: Seq<Seq<char>>)
    requires
        plan::link_overrides(stage, typed, symbols) is Going,
    ensures
        stage is Going,
        ({
            let after = plan::link_overrides(stage, typed, symbols)->Going_0;
            &&& adds_links(stage->Going_0, after)
            &&& forall|i: int, concrete: Seq<char>|
                0 <= i < symbols.len() ==> #[trigger] overrides_linked(
                    typed,
                    after,
                    symbols[i],
                    concrete,
                )
        }),
    decreases symbols.len(),
{
    if symbols.len() > 0 {
        let rest = symbols.drop_last();
        let middle_stage = plan::link_overrides(stage, typed, rest);
        let symbol = symbols.last();
        let idx = typed.index[symbol];
        let node = typed.node_at(idx);
        let name = node.node_core().name;
        let scope = node.node_core().scope;
        if let NodeView::Function(f) = node {
            if f.is_interface_method && scope is Some && typed.implementors.contains_key(scope->0) {
                lemma_link_implementations(
                    middle_stage,
                    typed,
                    idx,
                    name,
                    typed.implementors[scope->0],
                );
            }
        }
        lemma_link_overrides(stage, typed, rest);
        let middle = middle_stage->Going_0;
        let after = plan::link_overrides(stage, typed, symbols)->Going_0;
        assert(adds_links(middle, after));
        assert forall|i: int, concrete: Seq<char>| 0 <= i < symbols.len() implies #[trigger]
        overrides_linked(typed, after, symbols[i], concrete) by {
            if implements_method(typed, symbols[i], concrete) {
                let source = typed.index[symbols[i]];
                let own = typed.node_at(source).node_core().name;
                assert forall|target: NodeIndex| #[trigger]
                    is_override(typed, concrete, own, target) implies has_edge_for(
                    after,
                    Some(Link { source, target, kind: EdgeKind::OverriddenBy }),
                ) by {
                    if i < rest.len() {
                        assert(rest[i] == symbols[i]);
                        assert(overrides_linked(typed, middle, rest[i], concrete));
                        if source != target {
                            lemma_prefix_contains(
                                middle.links,
                                after.links,
                                Link { source, target, kind: EdgeKind::OverriddenBy },
                            );
                        }
                    } else {
                        let list = typed.implementors[scope->0];
                        let k = choose|k: int| 0 <= k < list.len() && list[k] == concrete;
                        assert(is_override(typed, list[k], name, target));
                    }
                }
            }
        }
    }
}

/// How many calls of a list cannot be recovered.
pub open spec fn open_count(
    typed: Plan,
    calls: Seq<OpenCall>,
    enclosing: Map<Seq<char>, Seq<char>>,
) -> nat
    decreases calls.len(),
{
    if calls.len() == 0 {
        0
    } else {
        open_count(typed, calls.drop_last(), enclosing) + if plan::recovered(
            typed,
            calls.last().reference,
            enclosing,
        ) is Unknown {
            1nat
        } else {
            0
        }
    }
}

/// The edge that a call stands for that was recovered.
pub open spec fn recovered_link(
    typed: Plan,
    call: OpenCall,
    enclosing: Map<Seq<char>, Seq<char>>,
) -> Option<Link> {
    match plan::recovered(typed, call.reference, enclosing) {
        Recovery::Target(target) => Some(
            Link { source: call.source, target, kind: EdgeKind::Call },
        ),
        _ => None,
    }
}

proof fn lemma_recover_calls(
    stage: Stage,
    typed: Plan,
    calls: Seq<OpenCall>,
    enclosing: Map<Seq<char>, Seq<char>>,
)
    requires
        plan::recover_calls(stage, typed, calls, enclosing).stage is Going,
    ensures
        stage is Going,
        ({
            let rest = plan::recover_calls(stage, typed, calls, enclosing);
            &&& adds_links(stage->Going_0, rest.stage->Going_0)
            &&& rest.left == open_count(typed, calls, enclosing)
            &&& forall|k: int|
                0 <= k < calls.len() ==> has_edge_for(
                    rest.stage->Going_0,
                    recovered_link(typed, #[trigger] calls[k], enclosing),
                )
        }),
    decreases calls.len(),
{
    if calls.len() > 0 {
        let fewer = calls.drop_last();
        lemma_recover_calls(stage, typed, fewer, enclosing);
        let middle = plan::recover_calls(stage, typed, fewer, enclosing).stage->Going_0;
        let after = plan::recover_calls(stage, typed, calls, enclosing).stage->Going_0;
        if let Recovery::Target(target) = plan::recovered(
            typed,
            calls.last().reference,
            enclosing,
        ) {
            lemma_with_link(middle, calls.last().source, target, EdgeKind::Call);
        }
        assert forall|k: int| 0 <= k < calls.len() implies has_edge_for(
            after,
            recovered_link(typed, #[trigger] calls[k], enclosing),
        ) by {
            if k < fewer.len() {
                assert(fewer[k] == calls[k]);
                if let Some(edge) = recovered_link(typed, calls[k], enclosing) {
                    if edge.source != edge.target {
                        lemma_prefix_contains(middle.links, after.links, edge);
                    }
                }
            } else {
                assert(calls[k] == calls.last());
            }
        }
    }
}

/// More edges do not change what an open call is recovered to.
proof fn lemma_recovered_stable(
    before: Plan,
    after: Plan,
    reference: SymbolReference,
    enclosing: Map<Seq<char>, Seq<char>>,
)
    requires
        adds_links(before, after),
    ensures
        plan::recovered(after, reference, enclosing) == plan::recovered(
            before,
            reference,
            enclosing,
        ),
{
    assert forall|scope: Seq<char>, name: Seq<char>| #[trigger]
        plan::methods(after, scope, name) == plan::methods(before, scope, name) by {
        lemma_methods_stable(before, after, before.symbols, scope, name);
    }
}

proof fn lemma_methods_stable(
    before: Plan,
    after: Plan,
    symbols: Seq<Seq<char>>,
    scope: Seq<char>,
    name: Seq<char>,
)
    requires
        adds_links(before, after),
    ensures
        plan::methods_named(after, symbols, scope, name) == plan::methods_named(
            before,
            symbols,
            scope,
            name,
        ),
    decreases symbols.len(),
{
    if symbols.len() > 0 {
        lemma_methods_stable(before, after, symbols.drop_last(), scope, name);
    }
}

/// Whether a plan knows a definition: a type is registered, and anything else a node.
pub open spec fn knows(plan: Plan, def: SymbolDefinition) -> bool {
    if def.kind == SymbolKind::Type {
        plan.types.contains_key(def.symbol_id@)
    } else {
        plan.index.contains_key(def.symbol_id@)
    }
}

/// Whether nodes are numbered in order, their symbols name them, and there are no
/// edges yet.
pub open spec fn numbered(plan: Plan) -> bool {
    &&& plan.nodes.len() <= u32::MAX
    &&& forall|i: int|
        0 <= i < plan.nodes.len() ==> (#[trigger] plan.nodes[i]).node_core().id == i
    &&& index_valid(plan)
    &&& plan.links.len() == 0
}

/// Whether one plan has no fewer symbols and types than another.
pub open spec fn keeps(before: Plan, after: Plan) -> bool {
    &&& forall|symbol: Seq<char>| #[trigger]
        before.index.contains_key(symbol) ==> after.index.contains_key(symbol)
    &&& forall|symbol: Seq<char>| #[trigger]
        before.types.contains_key(symbol) ==> after.types.contains_key(symbol)
}

pub(crate) proof fn lemma_with_implementors(
    before: Plan,
    interfaces: Seq<Seq<char>>,
    symbol: Seq<char>,
)
    ensures
        ({
            let after = before.with_implementors(interfaces, symbol);
            &&& after.nodes == before.nodes
            &&& after.links == before.links
            &&& after.index == before.index
            &&& after.types == before.types
        }),
    decreases interfaces.len(),
{
    if interfaces.len() > 0 {
        lemma_with_implementors(before, interfaces.drop_last(), symbol);
    }
}

pub(crate) proof fn lemma_add_internal<S: SizeFunction, D: DocumentationScorer>(
    size_function: S,
    doc_scorer: D,
    before: Plan,
    def: SymbolDefinition,
    path: Seq<char>,
    source: Seq<char>,
)
    requires
        numbered(before),
    ensures
        plan::add_internal(size_function, doc_scorer, before, def, path, source) matches
            Stage::Going(after) ==> numbered(after) && keeps(before, after) && knows(after, def),
{
    if let semantic::SymbolDetails::Type(t) = def.details {
        let parts = crate::domain::fragments::fragments_of(
            def,
            source,
            size_function,
            plan::is_interface_method(def),
        );
        let info = crate::domain::fragments::type_info_of(
            def,
            parts.surface,
            plan::score_of(doc_scorer, def, path),
        );
        let registered = before.with_type(def.symbol_id@, info);
        let first = crate::domain::text::texts(t.implements@);
        lemma_with_implementors(registered, first, def.symbol_id@);
        lemma_with_implementors(
            registered.with_implementors(first, def.symbol_id@),
            crate::domain::text::texts(t.inherits@),
            def.symbol_id@,
        );
    }
}

pub(crate) proof fn lemma_add_external<S: SizeFunction, D: DocumentationScorer>(
    size_function: S,
    doc_scorer: D,
    before: Plan,
    def: SymbolDefinition,
)
    requires
        numbered(before),
    ensures
        plan::add_external(size_function, doc_scorer, before, def) matches Stage::Going(after)
            ==> numbered(after) && keeps(before, after) && (after.index.contains_key(
            def.symbol_id@,
        ) || after.types.contains_key(def.symbol_id@)),
{
}

pub(crate) proof fn lemma_add_document<S: SizeFunction, D: DocumentationScorer>(
    size_function: S,
    doc_scorer: D,
    stage: Stage,
    definitions: Seq<SymbolDefinition>,
    path: Seq<char>,
    source: Seq<char>,
)
    requires
        stage matches Stage::Going(before) ==> numbered(before),
        plan::add_document(size_function, doc_scorer, stage, definitions, path, source) is Going,
    ensures
        stage is Going,
        ({
            let after = plan::add_document(
                size_function,
                doc_scorer,
                stage,
                definitions,
                path,
                source,
            )->Going_0;
            &&& numbered(after)
            &&& keeps(stage->Going_0, after)
            &&& forall|k: int|
                0 <= k < definitions.len() ==> knows(after, #[trigger] definitions[k])
        }),
    decreases definitions.len(),
{
    if definitions.len() > 0 {
        let rest = definitions.drop_last();
        lemma_add_document(size_function, doc_scorer, stage, rest, path, source);
        let middle = plan::add_document(
            size_function,
            doc_scorer,
            stage,
            rest,
            path,
            source,
        )->Going_0;
        lemma_add_internal(size_function, doc_scorer, middle, definitions.last(), path, source);
        let after = plan::add_document(
            size_function,
            doc_scorer,
            stage,
            definitions,
            path,
            source,
        )->Going_0;
        assert forall|k: int| 0 <= k < definitions.len() implies knows(
            after,
            #[trigger] definitions[k],
        ) by {
            if k < rest.len() {
                assert(knows(middle, rest[k]));
            } else {
                assert(definitions[k] == definitions.last());
            }
        }
    }
}

pub(crate) proof fn lemma_add_documents<S: SizeFunction, D: DocumentationScorer>(
    size_function: S,
    doc_scorer: D,
    documents: Seq<DocumentSemantics>,
    sources: Seq<Seq<char>>,
)
    requires
        plan::add_documents(size_function, doc_scorer, documents, sources) is Going,
    ensures
        ({
            let after = plan::add_documents(
                size_function,
                doc_scorer,
                documents,
                sources,
            )->Going_0;
            &&& numbered(after)
            &&& forall|k: int|
                0 <= k < semantic::document_definitions(documents).len() ==> knows(
                    after,
                    #[trigger] semantic::document_definitions(documents)[k],
                )
        }),
    decreases documents.len(),
{
    if documents.len() > 0 {
        let rest = documents.drop_last();
        let stage = plan::add_documents(size_function, doc_scorer, rest, sources.drop_last());
        let definitions = documents.last().definitions@;
        let path = documents.last().relative_path@;
        if stage is Going {
            lemma_add_documents(size_function, doc_scorer, rest, sources.drop_last());
        }
        lemma_add_document(size_function, doc_scorer, stage, definitions, path, sources.last());
        let earlier = semantic::document_definitions(rest);
        let all = semantic::document_definitions(documents);
        let after = plan::add_documents(size_function, doc_scorer, documents, sources)->Going_0;
        assert forall|k: int| 0 <= k < all.len() implies knows(after, #[trigger] all[k]) by {
            if k < earlier.len() {
                assert(all[k] == earlier[k]);
                assert(knows(stage->Going_0, earlier[k]));
            } else {
                assert(all[k] == definitions[k - earlier.len()]);
            }
        }
    }
}

pub(crate) proof fn lemma_add_externals<S: SizeFunction, D: DocumentationScorer>(
    size_function: S,
    doc_scorer: D,
    stage: Stage,
    definitions: Seq<SymbolDefinition>,
)
    requires
        stage matches Stage::Going(before) ==> numbered(before),
        plan::add_externals(size_function, doc_scorer, stage, definitions) is Going,
    ensures
        stage is Going,
        ({
            let after = plan::add_externals(
                size_function,
                doc_scorer,
                stage,
                definitions,
            )->Going_0;
            &&& numbered(after)
            &&& keeps(stage->Going_0, after)
            &&& forall|k: int|
                0 <= k < definitions.len() ==> after.index.contains_key(
                    (#[trigger] definitions[k]).symbol_id@,
                ) || after.types.contains_key(definitions[k].symbol_id@)
        }),
    decreases definitions.len(),
{
    if definitions.len() > 0 {
        let rest = definitions.drop_last();
        lemma_add_externals(size_function, doc_scorer, stage, rest);
        let middle = plan::add_externals(size_function, doc_scorer, stage, rest)->Going_0;
        lemma_add_external(size_function, doc_scorer, middle, definitions.last());
        let after = plan::add_externals(size_function, doc_scorer, stage, definitions)->Going_0;
        assert forall|k: int| 0 <= k < definitions.len() implies after.index.contains_key(
            (#[trigger] definitions[k]).symbol_id@,
        ) || after.types.contains_key(definitions[k].symbol_id@) by {
            if k < rest.len() {
                assert(rest[k] == definitions[k]);
            } else {
                assert(definitions[k] == definitions.last());
            }
        }
    }
}

/// The stages of a description: the nodes and types, the edges of references, the
/// nodes with their types, and all edges.
pub struct Stages {
    pub allocated: Plan,
    pub wiring: Wiring,
    pub typed: Plan,
    pub full: Plan,
}

/// The stages by which a model comes to describe a graph.
pub open spec fn stages<S: SizeFunction, D: DocumentationScorer>(
    size_function: S,
    doc_scorer: D,
    data: SemanticData,
    sources: Seq<Seq<char>>,
) -> Stages {
    let allocated = plan::allocated(size_function, doc_scorer, data, sources)->Going_0;
    let definitions = semantic::document_definitions(data.documents@);
    let enclosing = semantic::enclosing_of(data.definitions());
    let wiring = plan::wire_documents(
        WiringStage::Going(
            Wiring {
                plan: allocated,
                open_calls: Seq::empty(),
                assigned: Seq::empty(),
                called: Map::empty(),
            },
        ),
        data.documents@,
        enclosing,
        plan::initializers(allocated, definitions),
    )->Going_0;
    let typed = plan::with_returned_types(
        plan::with_types(wiring.plan, definitions),
        wiring.assigned,
        wiring.called,
    );
    let linked = plan::link_overrides(Stage::Going(typed), typed, typed.symbols);
    Stages {
        allocated,
        wiring,
        typed,
        full: plan::recover_calls(linked, typed, wiring.open_calls, enclosing).stage->Going_0,
    }
}

pub(crate) proof fn lemma_stages<S: SizeFunction, D: DocumentationScorer>(
    size_function: S,
    doc_scorer: D,
    data: SemanticData,
    sources: Seq<Seq<char>>,
)
    requires
        plan::described(size_function, doc_scorer, data, sources) is Described,
    ensures
        ({
            let description = plan::described(
                size_function,
                doc_scorer,
                data,
                sources,
            )->Described_0;
            let s = stages(size_function, doc_scorer, data, sources);
            let enclosing = semantic::enclosing_of(data.definitions());
            &&& description.plan == s.full
            &&& numbered(s.allocated)
            &&& forall|k: int|
                0 <= k < semantic::document_definitions(data.documents@).len() ==> knows(
                    s.allocated,
                    #[trigger] semantic::document_definitions(data.documents@)[k],
                )
            &&& forall|k: int|
                0 <= k < data.external_symbols@.len() ==> s.allocated.index.contains_key(
                    (#[trigger] data.external_symbols@[k]).symbol_id@,
                ) || s.allocated.types.contains_key(data.external_symbols@[k].symbol_id@)
            &&& adds_links(s.allocated, s.wiring.plan)
            &&& retypes(s.wiring.plan, s.typed)
            &&& adds_links(s.typed, s.full)
            &&& forall|i: int, j: int|
                0 <= i < data.documents@.len() && 0 <= j < data.documents@[i].references@.len()
                    ==> has_edge_for(
                    s.wiring.plan,
                    link_of(
                        #[trigger] data.documents@[i].references@[j],
                        s.allocated.index,
                        enclosing,
                    ),
                )
            &&& forall|i: int, concrete: Seq<char>|
                0 <= i < s.typed.symbols.len() ==> #[trigger] overrides_linked(
                    s.typed,
                    s.full,
                    s.typed.symbols[i],
                    concrete,
                )
            &&& description.coverage.unresolved_calls == open_count(
                s.typed,
                s.wiring.open_calls,
                enclosing,
            )
            &&& forall|k: int|
                0 <= k < s.wiring.open_calls.len() ==> has_edge_for(
                    s.full,
                    recovered_link(s.typed, #[trigger] s.wiring.open_calls[k], enclosing),
                )
        }),
{
    let s = stages(size_function, doc_scorer, data, sources);
    let definitions = semantic::document_definitions(data.documents@);
    let enclosing = semantic::enclosing_of(data.definitions());
    let inits = plan::initializers(s.allocated, definitions);
    let documented = plan::add_documents(size_function, doc_scorer, data.documents@, sources);
    if documented is Going {
        lemma_add_documents(size_function, doc_scorer, data.documents@, sources);
    }
    lemma_add_externals(size_function, doc_scorer, documented, data.external_symbols@);
    let start = WiringStage::Going(
        Wiring {
            plan: s.allocated,
            open_calls: Seq::empty(),
            assigned: Seq::empty(),
            called: Map::empty(),
        },
    );
    lemma_wire_documents(start, data.documents@, enclosing, inits);
    let filled = plan::with_types(s.wiring.plan, definitions);
    lemma_with_types(s.wiring.plan, definitions);
    lemma_with_returned_types(filled, s.wiring.assigned, s.wiring.called);
    let linked_stage = plan::link_overrides(Stage::Going(s.typed), s.typed, s.typed.symbols);
    lemma_recover_calls(linked_stage, s.typed, s.wiring.open_calls, enclosing);
    lemma_link_overrides(Stage::Going(s.typed), s.typed, s.typed.symbols);
    let linked = linked_stage->Going_0;
    assert forall|i: int, concrete: Seq<char>|
        0 <= i < s.typed.symbols.len() implies #[trigger] overrides_linked(
        s.typed,
        s.full,
        s.typed.symbols[i],
        concrete,
    ) by {
        let symbol = s.typed.symbols[i];
        assert(overrides_linked(s.typed, linked, symbol, concrete));
        if implements_method(s.typed, symbol, concrete) {
            let source = s.typed.index[symbol];
            let name = s.typed.node_at(source).node_core().name;
            assert forall|target: NodeIndex| #[trigger]
                is_override(s.typed, concrete, name, target) implies has_edge_for(
                s.full,
                Some(Link { source, target, kind: EdgeKind::OverriddenBy }),
            ) by {
                if source != target {
                    lemma_prefix_contains(
                        linked.links,
                        s.full.links,
                        Link { source, target, kind: EdgeKind::OverriddenBy },
                    );
                }
            }
        }
    }
    assert forall|k: int|
        0 <= k < definitions.len() implies knows(s.allocated, #[trigger] definitions[k]) by {
        assert(knows(documented->Going_0, definitions[k]));
    }
}

/// Every definition of a document is in the graph that a model describes: types are
/// registered, and functions and variables are nodes. Every external symbol is one of
/// these. Nodes are numbered in order, and symbols name nodes of the graph.
pub proof fn law_definitions_are_known<S: SizeFunction, D: DocumentationScorer>(
    size_function: S,
    doc_scorer: D,
    data: SemanticData,
    sources: Seq<Seq<char>>,
)
    requires
        plan::described(size_function, doc_scorer, data, sources) is Described,
    ensures
        ({
            let graph = plan::described(
                size_function,
                doc_scorer,
                data,
                sources,
            )->Described_0.plan;
            &&& forall|k: int|
                0 <= k < semantic::document_definitions(data.documents@).len() ==> knows(
                    graph,
                    #[trigger] semantic::document_definitions(data.documents@)[k],
                )
            &&& forall|k: int|
                0 <= k < data.external_symbols@.len() ==> graph.index.contains_key(
                    (#[trigger] data.external_symbols@[k]).symbol_id@,
                ) || graph.types.contains_key(data.external_symbols@[k].symbol_id@)
            &&& index_valid(graph)
            &&& forall|i: int|
                0 <= i < graph.nodes.len() ==> (#[trigger] graph.nodes[i]).node_core().id == i
        }),
{
    lemma_stages(size_function, doc_scorer, data, sources);
    let s = stages(size_function, doc_scorer, data, sources);
    let definitions = semantic::document_definitions(data.documents@);
    assert forall|k: int|
        0 <= k < definitions.len() implies knows(s.full, #[trigger] definitions[k]) by {
        assert(knows(s.allocated, definitions[k]));
    }
    assert forall|i: int| 0 <= i < s.full.nodes.len() implies (
    #[trigger] s.full.nodes[i]).node_core().id == i by {
        assert(s.allocated.nodes[i].node_core().id == i);
        assert(s.typed.nodes[i].node_core() == s.wiring.plan.nodes[i].node_core());
    }
}

/// Every reference whose source and target are nodes, or are enclosed by nodes, is an
/// edge of the graph that a model describes, unless it stays within one node.
pub proof fn law_references_are_edges<S: SizeFunction, D: DocumentationScorer>(
    size_function: S,
    doc_scorer: D,
    data: SemanticData,
    sources: Seq<Seq<char>>,
    i: int,
    j: int,
)
    requires
        plan::described(size_function, doc_scorer, data, sources) is Described,
        0 <= i < data.documents@.len(),
        0 <= j < data.documents@[i].references@.len(),
    ensures
        ({
            let graph = plan::described(
                size_function,
                doc_scorer,
                data,
                sources,
            )->Described_0.plan;
            has_edge_for(
                graph,
                link_of(
                    data.documents@[i].references@[j],
                    graph.index,
                    semantic::enclosing_of(data.definitions()),
                ),
            )
        }),
{
    lemma_stages(size_function, doc_scorer, data, sources);
    let s = stages(size_function, doc_scorer, data, sources);
    let enclosing = semantic::enclosing_of(data.definitions());
    let link = link_of(data.documents@[i].references@[j], s.allocated.index, enclosing);
    assert(has_edge_for(s.wiring.plan, link));
    if let Some(edge) = link {
        if edge.source != edge.target {
            lemma_prefix_contains(s.typed.links, s.full.links, edge);
        }
    }
}

/// In the graph that a model describes, a method of an interface is overridden by each
/// method of the same name of each type that implements the interface.
pub proof fn law_implementations_are_edges<S: SizeFunction, D: DocumentationScorer>(
    size_function: S,
    doc_scorer: D,
    data: SemanticData,
    sources: Seq<Seq<char>>,
    symbol: Seq<char>,
    concrete: Seq<char>,
)
    requires
        plan::described(size_function, doc_scorer, data, sources) is Described,
    ensures
        ({
            let graph = plan::described(
                size_function,
                doc_scorer,
                data,
                sources,
            )->Described_0.plan;
            graph.symbols.contains(symbol) ==> overrides_linked(graph, graph, symbol, concrete)
        }),
{
    lemma_stages(size_function, doc_scorer, data, sources);
    let s = stages(size_function, doc_scorer, data, sources);
    if s.full.symbols.contains(symbol) {
        let i = choose|i: int| 0 <= i < s.typed.symbols.len() && s.typed.symbols[i] == symbol;
        assert(overrides_linked(s.typed, s.full, s.typed.symbols[i], concrete));
        assert forall|scope: Seq<char>, name: Seq<char>| #[trigger]
            plan::methods(s.full, scope, name) == plan::methods(s.typed, scope, name) by {
            lemma_methods_stable(s.typed, s.full, s.typed.symbols, scope, name);
        }
        let name = s.full.node_at(s.full.index[symbol]).node_core().name;
        assert forall|target: NodeIndex| #[trigger]
            is_override(s.full, concrete, name, target) implies is_override(
            s.typed,
            concrete,
            name,
            target,
        ) by {
        }
    }
}

/// The calls that stay unresolved are those that cannot be recovered by the types in
/// the finished graph. Those that can be are edges.
pub proof fn law_recovery_is_complete<S: SizeFunction, D: DocumentationScorer>(
    size_function: S,
    doc_scorer: D,
    data: SemanticData,
    sources: Seq<Seq<char>>,
)
    requires
        plan::described(size_function, doc_scorer, data, sources) is Described,
    ensures
        ({
            let description = plan::described(
                size_function,
                doc_scorer,
                data,
                sources,
            )->Described_0;
            let graph = description.plan;
            let calls = stages(size_function, doc_scorer, data, sources).wiring.open_calls;
            let enclosing = semantic::enclosing_of(data.definitions());
            &&& description.coverage.unresolved_calls == open_count(graph, calls, enclosing)
            &&& forall|k: int|
                0 <= k < calls.len() ==> has_edge_for(
                    graph,
                    recovered_link(graph, #[trigger] calls[k], enclosing),
                )
        }),
{
    lemma_stages(size_function, doc_scorer, data, sources);
    let s = stages(size_function, doc_scorer, data, sources);
    let enclosing = semantic::enclosing_of(data.definitions());
    let calls = s.wiring.open_calls;
    lemma_open_count_stable(s.typed, s.full, calls, enclosing);
    assert forall|k: int| 0 <= k < calls.len() implies has_edge_for(
        s.full,
        recovered_link(s.full, #[trigger] calls[k], enclosing),
    ) by {
        lemma_recovered_stable(s.typed, s.full, calls[k].reference, enclosing);
    }
}

proof fn lemma_open_count_stable(
    before: Plan,
    after: Plan,
    calls: Seq<OpenCall>,
    enclosing: Map<Seq<char>, Seq<char>>,
)
    requires
        adds_links(before, after),
    ensures
        open_count(after, calls, enclosing) == open_count(before, calls, enclosing),
    decreases calls.len(),
{
    if calls.len() > 0 {
        lemma_open_count_stable(before, after, calls.drop_last(), enclosing);
        lemma_recovered_stable(before, after, calls.last().reference, enclosing);
    }
}

/// Whether all edges of a plan have a property.
spec fn all_links(plan: Plan, ok: spec_fn(Link) -> bool) -> bool {
    forall|i: int| 0 <= i < plan.links.len() ==> ok(#[trigger] plan.links[i])
}

/// Whether an edge comes from a reference: it starts at the node that the reference
/// occurs in, and its kind is that of the reference.
pub open spec fn comes_from(
    link: Link,
    reference: SymbolReference,
    index: Map<Seq<char>, NodeIndex>,
    enclosing: Map<Seq<char>, Seq<char>>,
) -> bool {
    &&& plan::resolve(reference.enclosing_symbol@, index, enclosing) matches Resolution::Found(
        source,
    ) && index[source] == link.source
    &&& link.kind == match reference.role {
        ReferenceRole::Call => EdgeKind::Call,
        ReferenceRole::Read => EdgeKind::Read,
        ReferenceRole::Write => EdgeKind::Write,
        ReferenceRole::Decorate => EdgeKind::Annotates,
    }
}

/// Whether a call that stayed open was made by the node it occurs in.
spec fn occurs_in(
    call: OpenCall,
    index: Map<Seq<char>, NodeIndex>,
    enclosing: Map<Seq<char>, Seq<char>>,
) -> bool {
    call.reference.role == ReferenceRole::Call && (plan::resolve(
        call.reference.enclosing_symbol@,
        index,
        enclosing,
    ) matches Resolution::Found(source) && index[source] == call.source)
}

/// Whether a reference gives only edges with a property.
spec fn reference_ok(
    reference: SymbolReference,
    index: Map<Seq<char>, NodeIndex>,
    enclosing: Map<Seq<char>, Seq<char>>,
    ok: spec_fn(Link) -> bool,
) -> bool {
    forall|link: Link|
        comes_from(link, reference, index, enclosing) && link.source != link.target
            ==> #[trigger] ok(link)
}

/// Whether what a wiring holds comes from references of a list of documents.
spec fn wiring_ok(
    wiring: Wiring,
    documents: Seq<DocumentSemantics>,
    enclosing: Map<Seq<char>, Seq<char>>,
    ok: spec_fn(Link) -> bool,
) -> bool {
    &&& all_links(wiring.plan, ok)
    &&& forall|k: int|
        0 <= k < wiring.open_calls.len() ==> call_ok(
            #[trigger] wiring.open_calls[k],
            wiring.plan.index,
            documents,
            enclosing,
        )
}

/// Whether an open call is that of a reference of a document.
spec fn call_ok(
    call: OpenCall,
    index: Map<Seq<char>, NodeIndex>,
    documents: Seq<DocumentSemantics>,
    enclosing: Map<Seq<char>, Seq<char>>,
) -> bool {
    occurs_in(call, index, enclosing) && is_reference(documents, call.reference)
}

/// Whether a reference is one of documents.
pub open spec fn is_reference(
    documents: Seq<DocumentSemantics>,
    reference: SymbolReference,
) -> bool {
    exists|i: int, j: int|
        0 <= i < documents.len() && 0 <= j < documents[i].references@.len()
            && #[trigger] documents[i].references@[j] == reference
}

proof fn lemma_reference_ok(
    wiring: Wiring,
    reference: SymbolReference,
    documents: Seq<DocumentSemantics>,
    enclosing: Map<Seq<char>, Seq<char>>,
    inits: Map<Seq<char>, Seq<char>>,
    ok: spec_fn(Link) -> bool,
)
    requires
        wiring_ok(wiring, documents, enclosing, ok),
        is_reference(documents, reference),
        reference_ok(reference, wiring.plan.index, enclosing, ok),
    ensures
        wiring.with_reference(reference, enclosing, inits) matches WiringStage::Going(after)
            ==> wiring_ok(after, documents, enclosing, ok) && after.plan.index
            == wiring.plan.index,
{
    let index = wiring.plan.index;
    let source = plan::resolve(reference.enclosing_symbol@, index, enclosing);
    if let (WiringStage::Going(after), Resolution::Found(symbol)) = (
        wiring.with_reference(reference, enclosing, inits),
        source,
    ) {
        assert forall|i: int| 0 <= i < after.plan.links.len() implies ok(
            #[trigger] after.plan.links[i],
        ) by {
            let link = after.plan.links[i];
            if i < wiring.plan.links.len() {
                assert(link == wiring.plan.links[i]);
            } else {
                assert(comes_from(link, reference, index, enclosing));
            }
        }
        assert forall|k: int| 0 <= k < after.open_calls.len() implies call_ok(
            #[trigger] after.open_calls[k],
            index,
            documents,
            enclosing,
        ) by {
            if k < wiring.open_calls.len() {
                assert(after.open_calls[k] == wiring.open_calls[k]);
            }
        }
    }
}

proof fn lemma_references_ok(
    stage: WiringStage,
    references: Seq<SymbolReference>,
    documents: Seq<DocumentSemantics>,
    enclosing: Map<Seq<char>, Seq<char>>,
    inits: Map<Seq<char>, Seq<char>>,
    ok: spec_fn(Link) -> bool,
)
    requires
        stage matches WiringStage::Going(before) ==> wiring_ok(before, documents, enclosing, ok)
            && forall|j: int|
            0 <= j < references.len() ==> is_reference(documents, #[trigger] references[j])
                && reference_ok(references[j], before.plan.index, enclosing, ok),
        plan::wire_references(stage, references, enclosing, inits) is Going,
    ensures
        stage is Going,
        ({
            let after = plan::wire_references(stage, references, enclosing, inits)->Going_0;
            wiring_ok(after, documents, enclosing, ok) && after.plan.index
                == stage->Going_0.plan.index
        }),
    decreases references.len(),
{
    if references.len() > 0 {
        let rest = references.drop_last();
        if let WiringStage::Going(before) = stage {
            assert forall|j: int| 0 <= j < rest.len() implies is_reference(
                documents,
                #[trigger] rest[j],
            ) && reference_ok(rest[j], before.plan.index, enclosing, ok) by {
                assert(rest[j] == references[j]);
            }
        }
        lemma_references_ok(stage, rest, documents, enclosing, inits, ok);
        let middle = plan::wire_references(stage, rest, enclosing, inits)->Going_0;
        assert(references[references.len() - 1] == references.last());
        lemma_reference_ok(middle, references.last(), documents, enclosing, inits, ok);
    }
}

proof fn lemma_documents_ok(
    stage: WiringStage,
    documents: Seq<DocumentSemantics>,
    n: int,
    enclosing: Map<Seq<char>, Seq<char>>,
    inits: Map<Seq<char>, Seq<char>>,
    ok: spec_fn(Link) -> bool,
)
    requires
        0 <= n <= documents.len(),
        stage matches WiringStage::Going(before) ==> wiring_ok(before, documents, enclosing, ok)
            && forall|reference: SymbolReference| #[trigger]
            is_reference(documents, reference) ==> reference_ok(
                reference,
                before.plan.index,
                enclosing,
                ok,
            ),
        plan::wire_documents(stage, documents.take(n), enclosing, inits) is Going,
    ensures
        stage is Going,
        ({
            let after = plan::wire_documents(
                stage,
                documents.take(n),
                enclosing,
                inits,
            )->Going_0;
            wiring_ok(after, documents, enclosing, ok) && after.plan.index
                == stage->Going_0.plan.index
        }),
    decreases n,
{
    if n > 0 {
        let list = documents.take(n);
        assert(list.drop_last() =~= documents.take(n - 1));
        assert(list.last() == documents[n - 1]);
        let middle = plan::wire_documents(stage, documents.take(n - 1), enclosing, inits);
        let references = documents[n - 1].references@;
        if middle is Going {
            lemma_documents_ok(stage, documents, n - 1, enclosing, inits, ok);
        }
        assert forall|j: int| 0 <= j < references.len() implies is_reference(
            documents,
            #[trigger] references[j],
        ) by {
            assert(documents[n - 1].references@[j] == references[j]);
        }
        lemma_references_ok(middle, references, documents, enclosing, inits, ok);
    }
}

proof fn lemma_link_each_ok(
    stage: Stage,
    source: NodeIndex,
    targets: Seq<NodeIndex>,
    kind: EdgeKind,
    ok: spec_fn(Link) -> bool,
)
    requires
        stage matches Stage::Going(before) ==> all_links(before, ok),
        forall|k: int|
            0 <= k < targets.len() && source != #[trigger] targets[k] ==> ok(
                (Link { source, target: targets[k], kind }),
            ),
    ensures
        plan::link_each(stage, source, targets, kind) matches Stage::Going(after) ==> all_links(
            after,
            ok,
        ),
    decreases targets.len(),
{
    if targets.len() > 0 {
        let rest = targets.drop_last();
        assert(targets[targets.len() - 1] == targets.last());
        assert forall|k: int| 0 <= k < rest.len() && source != #[trigger] rest[k] implies ok(
            (Link { source, target: rest[k], kind }),
        ) by {
            assert(rest[k] == targets[k]);
        }
        lemma_link_each_ok(stage, source, rest, kind, ok);
    }
}

/// Whether an edge leads from a method of an interface to a method of the same name of
/// a type that implements the interface.
pub open spec fn links_override(plan: Plan, link: Link) -> bool {
    exists|symbol: Seq<char>, concrete: Seq<char>|
        {
            &&& link.kind == EdgeKind::OverriddenBy
            &&& plan.symbols.contains(symbol)
            &&& plan.index[symbol] == link.source
            &&& #[trigger] implements_method(plan, symbol, concrete)
            &&& is_override(
                plan,
                concrete,
                plan.node_at(link.source).node_core().name,
                link.target,
            )
        }
}

proof fn lemma_implementations_ok(
    stage: Stage,
    typed: Plan,
    symbol: Seq<char>,
    concrete: Seq<Seq<char>>,
    ok: spec_fn(Link) -> bool,
)
    requires
        stage matches Stage::Going(before) ==> all_links(before, ok),
        typed.symbols.contains(symbol),
        forall|k: int|
            0 <= k < concrete.len() ==> implements_method(typed, symbol, #[trigger] concrete[k]),
        forall|link: Link|
            links_override(typed, link) && link.source != link.target ==> #[trigger] ok(link),
    ensures
        plan::link_implementations(
            stage,
            typed,
            typed.index[symbol],
            typed.node_at(typed.index[symbol]).node_core().name,
            concrete,
        ) matches Stage::Going(after) ==> all_links(after, ok),
    decreases concrete.len(),
{
    if concrete.len() > 0 {
        let rest = concrete.drop_last();
        let source = typed.index[symbol];
        let name = typed.node_at(source).node_core().name;
        assert(concrete[concrete.len() - 1] == concrete.last());
        assert forall|k: int| 0 <= k < rest.len() implies implements_method(
            typed,
            symbol,
            #[trigger] rest[k],
        ) by {
            assert(rest[k] == concrete[k]);
        }
        lemma_implementations_ok(stage, typed, symbol, rest, ok);
        let targets = plan::methods(typed, concrete.last(), name);
        assert forall|k: int|
            0 <= k < targets.len() && source != #[trigger] targets[k] implies ok(
            (Link { source, target: targets[k], kind: EdgeKind::OverriddenBy }),
        ) by {
            let link = Link { source, target: targets[k], kind: EdgeKind::OverriddenBy };
            assert(implements_method(typed, symbol, concrete.last()));
            assert(is_override(typed, concrete.last(), name, targets[k]));
            assert(links_override(typed, link));
        }
        lemma_link_each_ok(
            plan::link_implementations(stage, typed, source, name, rest),
            source,
            targets,
            EdgeKind::OverriddenBy,
            ok,
        );
    }
}

proof fn lemma_overrides_ok(
    stage: Stage,
    typed: Plan,
    n: int,
    ok: spec_fn(Link) -> bool,
)
    requires
        0 <= n <= typed.symbols.len(),
        stage matches Stage::Going(before) ==> all_links(before, ok),
        forall|link: Link|
            links_override(typed, link) && link.source != link.target ==> #[trigger] ok(link),
    ensures
        plan::link_overrides(stage, typed, typed.symbols.take(n)) matches Stage::Going(after)
            ==> all_links(after, ok),
    decreases n,
{
    if n > 0 {
        let list = typed.symbols.take(n);
        assert(list.drop_last() =~= typed.symbols.take(n - 1));
        lemma_overrides_ok(stage, typed, n - 1, ok);
        let symbol = list.last();
        assert(typed.symbols[n - 1] == symbol);
        let node = typed.node_at(typed.index[symbol]);
        if let NodeView::Function(f) = node {
            if let Some(scope) = f.core.scope {
                if f.is_interface_method && typed.implementors.contains_key(scope) {
                    let concrete = typed.implementors[scope];
                    assert forall|k: int| 0 <= k < concrete.len() implies implements_method(
                        typed,
                        symbol,
                        #[trigger] concrete[k],
                    ) by {
                        assert(concrete.contains(concrete[k]));
                    }
                    lemma_implementations_ok(
                        plan::link_overrides(stage, typed, typed.symbols.take(n - 1)),
                        typed,
                        symbol,
                        concrete,
                        ok,
                    );
                }
            }
        }
    }
}

proof fn lemma_recovery_ok(
    stage: Stage,
    typed: Plan,
    calls: Seq<OpenCall>,
    documents: Seq<DocumentSemantics>,
    enclosing: Map<Seq<char>, Seq<char>>,
    ok: spec_fn(Link) -> bool,
)
    requires
        stage matches Stage::Going(before) ==> all_links(before, ok),
        forall|k: int|
            0 <= k < calls.len() ==> call_ok(
                #[trigger] calls[k],
                typed.index,
                documents,
                enclosing,
            ),
        forall|reference: SymbolReference| #[trigger]
            is_reference(documents, reference) ==> reference_ok(
                reference,
                typed.index,
                enclosing,
                ok,
            ),
    ensures
        plan::recover_calls(stage, typed, calls, enclosing).stage matches Stage::Going(after)
            ==> all_links(after, ok),
    decreases calls.len(),
{
    if calls.len() > 0 {
        let rest = calls.drop_last();
        assert(calls[calls.len() - 1] == calls.last());
        assert forall|k: int| 0 <= k < rest.len() implies call_ok(
            #[trigger] rest[k],
            typed.index,
            documents,
            enclosing,
        ) by {
            assert(rest[k] == calls[k]);
        }
        lemma_recovery_ok(stage, typed, rest, documents, enclosing, ok);
        let call = calls.last();
        if let Recovery::Target(target) = plan::recovered(typed, call.reference, enclosing) {
            let link = Link { source: call.source, target, kind: EdgeKind::Call };
            assert(reference_ok(call.reference, typed.index, enclosing, ok));
            assert(comes_from(link, call.reference, typed.index, enclosing));
            assert(link.source != link.target ==> ok(link));
        }
    }
}

/// Every edge of the graph that a model describes says something that the model says:
/// it comes from a reference in its source, or links a method of an interface to one
/// that implements it. No edge leads back to where it starts.
pub proof fn law_edges_are_facts<S: SizeFunction, D: DocumentationScorer>(
    size_function: S,
    doc_scorer: D,
    data: SemanticData,
    sources: Seq<Seq<char>>,
    link: Link,
)
    requires
        plan::described(size_function, doc_scorer, data, sources) is Described,
    ensures
        ({
            let graph = plan::described(
                size_function,
                doc_scorer,
                data,
                sources,
            )->Described_0.plan;
            let enclosing = semantic::enclosing_of(data.definitions());
            graph.links.contains(link) ==> link.source != link.target && (links_override(
                graph,
                link,
            ) || exists|reference: SymbolReference| #[trigger]
                is_reference(data.documents@, reference) && comes_from(
                    link,
                    reference,
                    graph.index,
                    enclosing,
                ))
        }),
{
    lemma_stages(size_function, doc_scorer, data, sources);
    let s = stages(size_function, doc_scorer, data, sources);
    let documents = data.documents@;
    let definitions = semantic::document_definitions(documents);
    let enclosing = semantic::enclosing_of(data.definitions());
    let inits = plan::initializers(s.allocated, definitions);
    let index = s.allocated.index;
    let ok = |l: Link|
        l.source != l.target && (links_override(s.typed, l) || exists|reference: SymbolReference|
         #[trigger]
            is_reference(documents, reference) && comes_from(l, reference, index, enclosing));
    assert forall|reference: SymbolReference| #[trigger]
        is_reference(documents, reference) implies reference_ok(
        reference,
        index,
        enclosing,
        ok,
    ) by {
        assert forall|l: Link|
            comes_from(l, reference, index, enclosing) && l.source
                != l.target implies #[trigger] ok(l) by {
            assert(is_reference(documents, reference) && comes_from(
                l,
                reference,
                index,
                enclosing,
            ));
        }
    }
    let start = WiringStage::Going(
        Wiring {
            plan: s.allocated,
            open_calls: Seq::empty(),
            assigned: Seq::empty(),
            called: Map::empty(),
        },
    );
    assert(documents.take(documents.len() as int) =~= documents);
    lemma_documents_ok(start, documents, documents.len() as int, enclosing, inits, ok);
    assert(s.typed.links == s.wiring.plan.links);
    let symbols = s.typed.symbols;
    assert(symbols.take(symbols.len() as int) =~= symbols);
    lemma_overrides_ok(Stage::Going(s.typed), s.typed, symbols.len() as int, ok);
    lemma_recovery_ok(
        plan::link_overrides(Stage::Going(s.typed), s.typed, symbols),
        s.typed,
        s.wiring.open_calls,
        documents,
        enclosing,
        ok,
    );
    if s.full.links.contains(link) {
        let i = choose|i: int| 0 <= i < s.full.links.len() && s.full.links[i] == link;
        assert(ok(s.full.links[i]));
        if links_override(s.typed, link) {
            assert forall|scope: Seq<char>, name: Seq<char>| #[trigger]
                plan::methods(s.full, scope, name) == plan::methods(s.typed, scope, name) by {
                lemma_methods_stable(s.typed, s.full, symbols, scope, name);
            }
            let (symbol, concrete) = choose|symbol: Seq<char>, concrete: Seq<char>|
                {
                    &&& link.kind == EdgeKind::OverriddenBy
                    &&& s.typed.symbols.contains(symbol)
                    &&& s.typed.index[symbol] == link.source
                    &&& #[trigger] implements_method(s.typed, symbol, concrete)
                    &&& is_override(
                        s.typed,
                        concrete,
                        s.typed.node_at(link.source).node_core().name,
                        link.target,
                    )
                };
            assert(implements_method(s.full, symbol, concrete));
            assert(links_override(s.full, link));
        }
    }
}

} // verus!
