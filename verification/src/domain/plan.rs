//! Which graph a semantic model describes.
//!
//! The definitions here say, step by step, what nodes, types and edges a graph
//! consists of. The builder makes that graph.

use crate::domain::digraph::Link;
use crate::domain::edge::EdgeKind;
use crate::domain::fragments;
use crate::domain::fragments::Fragments;
use crate::domain::graph::{ContextGraph, NodeIndex};
use crate::domain::node::{CoreView, FunctionView, Node, NodeView, VariableView};
use crate::domain::policy::{DocumentationScorer, NodeInfoView, SizeFunction};
use crate::domain::score::Score;
use crate::domain::semantic;
use crate::domain::semantic::{
    DocumentSemantics, ReferenceRole, SemanticData, SymbolDefinition, SymbolDetails, SymbolKind,
    SymbolReference,
};
use crate::domain::text;
use crate::domain::type_registry::{TypeInfo, TypeInfoView};
use vstd::prelude::*;

verus! {

/// A graph as a value of the specification.
#[verifier::ext_equal]
pub struct Plan {
    pub nodes: Seq<NodeView>,
    pub links: Seq<Link>,
    /// Symbols of nodes in order of first definition.
    pub symbols: Seq<Seq<char>>,
    pub index: Map<Seq<char>, NodeIndex>,
    pub type_ids: Seq<Seq<char>>,
    pub types: Map<Seq<char>, TypeInfoView>,
    pub implementors: Map<Seq<char>, Seq<Seq<char>>>,
}

/// What a graph holds.
pub open spec fn plan_of(graph: ContextGraph) -> Plan {
    Plan {
        nodes: graph.nodes().map_values(|node: Node| node@),
        links: graph.links(),
        symbols: graph.symbol_to_node.symbols(),
        index: graph.symbol_to_node@,
        type_ids: graph.type_registry.ids(),
        types: graph.types().map_values(|info: TypeInfo| info@),
        implementors: graph.type_registry.implementor_map(),
    }
}

/// A graph without nodes.
pub open spec fn empty_plan() -> Plan {
    Plan {
        nodes: Seq::empty(),
        links: Seq::empty(),
        symbols: Seq::empty(),
        index: Map::empty(),
        type_ids: Seq::empty(),
        types: Map::empty(),
        implementors: Map::empty(),
    }
}

/// How far the description of a graph has come.
#[verifier::ext_equal]
pub enum Stage {
    Going(Plan),
    /// A symbol is given as a function or variable, but with the details of a type.
    Refused(Seq<char>),
    /// The model describes no graph that can be represented: there are too many nodes
    /// or edges, sizes that do not fit, or symbols that enclose each other.
    Unsupported,
}

impl Plan {
    /// The plan with another node, which its symbol names from now on.
    pub open spec fn with_node(self, symbol: Seq<char>, node: NodeView) -> Plan {
        Plan {
            nodes: self.nodes.push(node),
            symbols: if self.index.contains_key(symbol) {
                self.symbols
            } else {
                self.symbols.push(symbol)
            },
            index: self.index.insert(symbol, NodeIndex { ix: self.nodes.len() as u32 }),
            ..self
        }
    }

    /// The plan with another type.
    pub open spec fn with_type(self, symbol: Seq<char>, info: TypeInfoView) -> Plan {
        Plan {
            type_ids: if self.types.contains_key(symbol) {
                self.type_ids
            } else {
                self.type_ids.push(symbol)
            },
            types: self.types.insert(symbol, info),
            ..self
        }
    }

    /// The plan with a type as implementor of an interface.
    pub open spec fn with_implementor(self, interface: Seq<char>, symbol: Seq<char>) -> Plan {
        Plan {
            implementors: self.implementors.insert(
                interface,
                (if self.implementors.contains_key(interface) {
                    self.implementors[interface]
                } else {
                    Seq::empty()
                }).push(symbol),
            ),
            ..self
        }
    }

    /// The plan with a type as implementor of each interface of a list.
    pub open spec fn with_implementors(
        self,
        interfaces: Seq<Seq<char>>,
        symbol: Seq<char>,
    ) -> Plan
        decreases interfaces.len(),
    {
        if interfaces.len() == 0 {
            self
        } else {
            self.with_implementors(interfaces.drop_last(), symbol).with_implementor(
                interfaces.last(),
                symbol,
            )
        }
    }

    /// The plan with an edge, unless it leads back to where it starts.
    pub open spec fn with_link(self, source: NodeIndex, target: NodeIndex, kind: EdgeKind) -> Stage {
        if source == target {
            Stage::Going(self)
        } else if self.links.len() < u32::MAX {
            Stage::Going(Plan { links: self.links.push(Link { source, target, kind }), ..self })
        } else {
            Stage::Unsupported
        }
    }

    pub open spec fn node_at(self, idx: NodeIndex) -> NodeView {
        self.nodes[idx.ix as int]
    }

    /// The plan with another node at an index.
    pub open spec fn with_node_at(self, idx: NodeIndex, node: NodeView) -> Plan {
        Plan { nodes: self.nodes.update(idx.ix as int, node), ..self }
    }
}

/// The sum of the sizes of fragments, held at the largest that can be represented.
pub open spec fn fragments_size(fragments: Fragments) -> u32 {
    let sum = fragments.surface.context_size + match fragments.implementation {
        Some(fragment) => fragment.context_size as int,
        None => 0,
    };
    if sum <= u32::MAX {
        sum as u32
    } else {
        u32::MAX
    }
}

/// The score of the documentation of a definition, given its signature and language.
pub open spec fn score_with<D: DocumentationScorer>(
    doc_scorer: D,
    def: SymbolDefinition,
    signature: Option<Seq<char>>,
    language: Seq<char>,
) -> Score {
    doc_scorer.rating(
        NodeInfoView {
            node_type: fragments::node_type_of(def.kind),
            name: def.name@,
            signature,
            language: Some(language),
        },
        fragments::unless_empty(fragments::documentation_text(def)),
    )
}

/// The score of the documentation of a definition in a file. The language goes by the
/// extension of the file.
pub open spec fn score_of<D: DocumentationScorer>(
    doc_scorer: D,
    def: SymbolDefinition,
    path: Seq<char>,
) -> Score {
    score_with(
        doc_scorer,
        def,
        fragments::signature_text(def),
        text::lowercase_of(text::extension(path)),
    )
}

/// The core of the node of a definition.
pub open spec fn core_of(
    id: u32,
    def: SymbolDefinition,
    fragments: Fragments,
    doc_score: Score,
    is_external: bool,
    path: Seq<char>,
) -> CoreView {
    CoreView {
        id,
        name: def.name@,
        scope: text::optional_text(def.enclosing_symbol),
        context_size: fragments_size(fragments),
        surface_fragment: fragments.surface,
        implementation_fragment: fragments.implementation,
        span: fragments::span_of(def.span),
        doc_score,
        documentation: text::texts(def.documentation@),
        is_external,
        file_path: path,
    }
}

/// Whether a function is declared without a body.
pub open spec fn is_interface_method(def: SymbolDefinition) -> bool {
    def.kind == SymbolKind::Function && match def.details {
        SymbolDetails::Function(f) => f.modifiers.is_abstract,
        _ => false,
    }
}

/// Adds the node of a definition of a function or variable.
pub open spec fn add_node(
    plan: Plan,
    def: SymbolDefinition,
    fragments: Fragments,
    doc_score: Score,
    is_external: bool,
    path: Seq<char>,
    interface_method: bool,
) -> Stage {
    let core_view = core_of(
        plan.nodes.len() as u32,
        def,
        fragments,
        doc_score,
        is_external,
        path,
    );
    match fragments::node_of(core_view, def, interface_method) {
        None => Stage::Refused(def.symbol_id@),
        Some(node) => if plan.nodes.len() < u32::MAX {
            Stage::Going(plan.with_node(def.symbol_id@, node))
        } else {
            Stage::Unsupported
        },
    }
}

/// Adds the type of a definition in a document, with the interfaces and base types
/// that it implements.
pub open spec fn add_type(plan: Plan, def: SymbolDefinition, info: TypeInfoView) -> Plan {
    let registered = plan.with_type(def.symbol_id@, info);
    match def.details {
        SymbolDetails::Type(t) => registered.with_implementors(
            text::texts(t.implements@),
            def.symbol_id@,
        ).with_implementors(text::texts(t.inherits@), def.symbol_id@),
        _ => registered,
    }
}

/// Adds a definition of a document.
pub open spec fn add_internal<S: SizeFunction, D: DocumentationScorer>(
    size_function: S,
    doc_scorer: D,
    plan: Plan,
    def: SymbolDefinition,
    path: Seq<char>,
    source: Seq<char>,
) -> Stage {
    if !fragments::spans_representable(def, source, size_function) {
        Stage::Unsupported
    } else {
        let parts = fragments::fragments_of(def, source, size_function, is_interface_method(def));
        let doc_score = score_of(doc_scorer, def, path);
        match def.kind {
            SymbolKind::Type => Stage::Going(
                add_type(plan, def, fragments::type_info_of(def, parts.surface, doc_score)),
            ),
            SymbolKind::Function | SymbolKind::Variable => add_node(
                plan,
                def,
                parts,
                doc_score,
                def.is_external,
                path,
                is_interface_method(def),
            ),
        }
    }
}

/// Adds an external symbol, unless it is defined by a document. It has a surface only.
pub open spec fn add_external<S: SizeFunction, D: DocumentationScorer>(
    size_function: S,
    doc_scorer: D,
    plan: Plan,
    def: SymbolDefinition,
) -> Stage {
    if plan.index.contains_key(def.symbol_id@) || plan.types.contains_key(def.symbol_id@) {
        Stage::Going(plan)
    } else {
        let surface = fragments::external_surface(
            def,
            fragments::signature_text(def),
            size_function,
        );
        let path = def.location.file_path@;
        let doc_score = score_of(doc_scorer, def, path);
        match def.kind {
            SymbolKind::Type => Stage::Going(
                plan.with_type(
                    def.symbol_id@,
                    fragments::type_info_of(def, surface, doc_score),
                ),
            ),
            SymbolKind::Function | SymbolKind::Variable => add_node(
                plan,
                def,
                Fragments { surface, implementation: None },
                doc_score,
                true,
                path,
                false,
            ),
        }
    }
}

/// Adds the definitions of a document.
pub open spec fn add_document<S: SizeFunction, D: DocumentationScorer>(
    size_function: S,
    doc_scorer: D,
    stage: Stage,
    definitions: Seq<SymbolDefinition>,
    path: Seq<char>,
    source: Seq<char>,
) -> Stage
    decreases definitions.len(),
{
    if definitions.len() == 0 {
        stage
    } else {
        match add_document(
            size_function,
            doc_scorer,
            stage,
            definitions.drop_last(),
            path,
            source,
        ) {
            Stage::Going(plan) => add_internal(
                size_function,
                doc_scorer,
                plan,
                definitions.last(),
                path,
                source,
            ),
            other => other,
        }
    }
}

/// Adds the definitions of documents, with the sources of the documents.
pub open spec fn add_documents<S: SizeFunction, D: DocumentationScorer>(
    size_function: S,
    doc_scorer: D,
    documents: Seq<DocumentSemantics>,
    sources: Seq<Seq<char>>,
) -> Stage
    decreases documents.len(),
{
    if documents.len() == 0 {
        Stage::Going(empty_plan())
    } else {
        add_document(
            size_function,
            doc_scorer,
            add_documents(size_function, doc_scorer, documents.drop_last(), sources.drop_last()),
            documents.last().definitions@,
            documents.last().relative_path@,
            sources.last(),
        )
    }
}

/// Adds external symbols.
pub open spec fn add_externals<S: SizeFunction, D: DocumentationScorer>(
    size_function: S,
    doc_scorer: D,
    stage: Stage,
    definitions: Seq<SymbolDefinition>,
) -> Stage
    decreases definitions.len(),
{
    if definitions.len() == 0 {
        stage
    } else {
        match add_externals(size_function, doc_scorer, stage, definitions.drop_last()) {
            Stage::Going(plan) => add_external(
                size_function,
                doc_scorer,
                plan,
                definitions.last(),
            ),
            other => other,
        }
    }
}

/// The nodes and types that a model describes.
pub open spec fn allocated<S: SizeFunction, D: DocumentationScorer>(
    size_function: S,
    doc_scorer: D,
    data: SemanticData,
    sources: Seq<Seq<char>>,
) -> Stage {
    add_externals(
        size_function,
        doc_scorer,
        add_documents(size_function, doc_scorer, data.documents@, sources),
        data.external_symbols@,
    )
}

/// Whether a definition is the initializer of a registered type.
pub open spec fn is_initializer(plan: Plan, def: SymbolDefinition) -> bool {
    def.kind == SymbolKind::Function && def.name@ == "__init__"@ && match def.enclosing_symbol {
        Some(parent) => plan.types.contains_key(parent@) && plan.index.contains_key(
            def.symbol_id@,
        ),
        None => false,
    }
}

/// The initializer of each type that has one. Of several the last counts.
pub open spec fn initializers(
    plan: Plan,
    definitions: Seq<SymbolDefinition>,
) -> Map<Seq<char>, Seq<char>>
    decreases definitions.len(),
{
    if definitions.len() == 0 {
        Map::empty()
    } else {
        let rest = initializers(plan, definitions.drop_last());
        let def = definitions.last();
        if is_initializer(plan, def) {
            rest.insert(def.enclosing_symbol->0@, def.symbol_id@)
        } else {
            rest
        }
    }
}

/// What a symbol stands for in the graph.
#[verifier::ext_equal]
pub enum Resolution {
    /// The nearest symbol that is a node: the symbol itself or one that encloses it.
    Found(Seq<char>),
    Nothing,
    /// The enclosing symbols go on without end.
    Endless,
}

/// Looks for the nearest node among a symbol and those that enclose it, in so many
/// steps outwards.
pub open spec fn resolve_within(
    symbol: Seq<char>,
    index: Map<Seq<char>, NodeIndex>,
    enclosing: Map<Seq<char>, Seq<char>>,
    steps: nat,
) -> Resolution
    decreases steps,
{
    if index.contains_key(symbol) {
        Resolution::Found(symbol)
    } else if !enclosing.contains_key(symbol) {
        Resolution::Nothing
    } else if steps == 0 {
        Resolution::Endless
    } else {
        resolve_within(enclosing[symbol], index, enclosing, (steps - 1) as nat)
    }
}

/// What a symbol stands for. As many steps outwards as there are enclosed symbols
/// come to an end, if there is one.
pub open spec fn resolve(
    symbol: Seq<char>,
    index: Map<Seq<char>, NodeIndex>,
    enclosing: Map<Seq<char>, Seq<char>>,
) -> Resolution {
    resolve_within(symbol, index, enclosing, enclosing.len())
}

/// The symbol so many steps outwards.
spec fn outwards(
    symbol: Seq<char>,
    enclosing: Map<Seq<char>, Seq<char>>,
    steps: nat,
) -> Seq<char>
    decreases steps,
{
    if steps == 0 {
        symbol
    } else {
        outwards(enclosing[symbol], enclosing, (steps - 1) as nat)
    }
}

/// Whether a search ends at a symbol.
spec fn ends(
    symbol: Seq<char>,
    index: Map<Seq<char>, NodeIndex>,
    enclosing: Map<Seq<char>, Seq<char>>,
) -> bool {
    index.contains_key(symbol) || !enclosing.contains_key(symbol)
}

proof fn lemma_outwards(
    symbol: Seq<char>,
    enclosing: Map<Seq<char>, Seq<char>>,
    a: nat,
    b: nat,
)
    ensures
        outwards(outwards(symbol, enclosing, a), enclosing, b) == outwards(
            symbol,
            enclosing,
            a + b,
        ),
    decreases a,
{
    if a > 0 {
        lemma_outwards(enclosing[symbol], enclosing, (a - 1) as nat, b);
    }
}

/// A search that is not over after some steps has not ended before.
proof fn lemma_endless(
    symbol: Seq<char>,
    index: Map<Seq<char>, NodeIndex>,
    enclosing: Map<Seq<char>, Seq<char>>,
    steps: nat,
    k: nat,
)
    requires
        resolve_within(symbol, index, enclosing, steps) is Endless,
        k <= steps,
    ensures
        !ends(outwards(symbol, enclosing, k), index, enclosing),
    decreases steps,
{
    if k > 0 {
        lemma_endless(enclosing[symbol], index, enclosing, (steps - 1) as nat, (k - 1) as nat);
    }
}

/// A search that ends somewhere is over after so many steps.
proof fn lemma_over(
    symbol: Seq<char>,
    index: Map<Seq<char>, NodeIndex>,
    enclosing: Map<Seq<char>, Seq<char>>,
    steps: nat,
)
    requires
        resolve_within(symbol, index, enclosing, steps) !is Endless,
    ensures
        exists|k: nat| k <= steps && #[trigger] ends(
            outwards(symbol, enclosing, k),
            index,
            enclosing,
        ),
    decreases steps,
{
    if ends(symbol, index, enclosing) {
        assert(outwards(symbol, enclosing, 0) == symbol);
        assert(ends(outwards(symbol, enclosing, 0), index, enclosing));
    } else {
        let next = enclosing[symbol];
        lemma_over(next, index, enclosing, (steps - 1) as nat);
        let k = choose|k: nat|
            k <= steps - 1 && #[trigger] ends(outwards(next, enclosing, k), index, enclosing);
        assert(outwards(symbol, enclosing, k + 1) == outwards(next, enclosing, k));
        assert(ends(outwards(symbol, enclosing, k + 1), index, enclosing));
    }
}

/// A search is over by the step at which it ends.
proof fn lemma_over_by(
    symbol: Seq<char>,
    index: Map<Seq<char>, NodeIndex>,
    enclosing: Map<Seq<char>, Seq<char>>,
    n: nat,
    m: nat,
)
    requires
        ends(outwards(symbol, enclosing, m), index, enclosing),
        enclosing.dom().finite(),
        enclosing.len() <= n,
    ensures
        resolve_within(symbol, index, enclosing, n) !is Endless,
    decreases m,
{
    if resolve_within(symbol, index, enclosing, n) is Endless {
        if m <= n {
            lemma_endless(symbol, index, enclosing, n, m);
        } else {
            let size = enclosing.len();
            let passed = Seq::new(
                (size + 1) as nat,
                |k: int| outwards(symbol, enclosing, k as nat),
            );
            assert forall|k: int| 0 <= k < passed.len() implies enclosing.contains_key(
                #[trigger] passed[k],
            ) by {
                lemma_endless(symbol, index, enclosing, n, k as nat);
            }
            if passed.no_duplicates() {
                passed.unique_seq_to_set();
                assert(passed.to_set().subset_of(enclosing.dom())) by {
                    assert forall|x: Seq<char>| #[trigger]
                        passed.to_set().contains(x) implies enclosing.dom().contains(x) by {
                        let k = choose|k: int| 0 <= k < passed.len() && passed[k] == x;
                        assert(enclosing.contains_key(passed[k]));
                    }
                }
                vstd::set_lib::lemma_len_subset(passed.to_set(), enclosing.dom());
            }
            let (i, j) = choose|i: int, j: int|
                0 <= i < passed.len() && 0 <= j < passed.len() && i != j && passed[i]
                    == passed[j];
            let (a, b) = if i < j {
                (i as nat, j as nat)
            } else {
                (j as nat, i as nat)
            };
            let rest = (m - b) as nat;
            lemma_outwards(symbol, enclosing, a, rest);
            lemma_outwards(symbol, enclosing, b, rest);
            lemma_over_by(symbol, index, enclosing, n, (a + rest) as nat);
        }
    }
}

/// More steps do not change what was found.
proof fn lemma_more_steps(
    symbol: Seq<char>,
    index: Map<Seq<char>, NodeIndex>,
    enclosing: Map<Seq<char>, Seq<char>>,
    a: nat,
    b: nat,
)
    requires
        resolve_within(symbol, index, enclosing, a) !is Endless,
        resolve_within(symbol, index, enclosing, b) !is Endless,
    ensures
        resolve_within(symbol, index, enclosing, a) == resolve_within(
            symbol,
            index,
            enclosing,
            b,
        ),
    decreases a,
{
    if !ends(symbol, index, enclosing) {
        lemma_more_steps(enclosing[symbol], index, enclosing, (a - 1) as nat, (b - 1) as nat);
    }
}

/// As many steps outwards as there are enclosed symbols find whatever any number of
/// steps finds. Only where symbols enclose each other is there no end.
pub proof fn law_resolution_is_final(
    symbol: Seq<char>,
    index: Map<Seq<char>, NodeIndex>,
    enclosing: Map<Seq<char>, Seq<char>>,
    steps: nat,
)
    requires
        enclosing.dom().finite(),
        resolve_within(symbol, index, enclosing, steps) !is Endless,
    ensures
        resolve(symbol, index, enclosing) == resolve_within(symbol, index, enclosing, steps),
{
    lemma_over(symbol, index, enclosing, steps);
    let m = choose|m: nat|
        m <= steps && #[trigger] ends(outwards(symbol, enclosing, m), index, enclosing);
    lemma_over_by(symbol, index, enclosing, enclosing.len(), m);
    lemma_more_steps(symbol, index, enclosing, enclosing.len(), steps);
}

/// A symbol that is a node stands for itself. One that is not stands for what the symbol
/// stands for that encloses it, or for nothing where no symbol does.
pub proof fn law_symbols_stand_for_what_encloses_them(
    symbol: Seq<char>,
    index: Map<Seq<char>, NodeIndex>,
    enclosing: Map<Seq<char>, Seq<char>>,
)
    requires
        enclosing.dom().finite(),
    ensures
        index.contains_key(symbol) ==> resolve(symbol, index, enclosing) == Resolution::Found(
            symbol,
        ),
        !index.contains_key(symbol) && !enclosing.contains_key(symbol) ==> resolve(
            symbol,
            index,
            enclosing,
        ) == Resolution::Nothing,
        !index.contains_key(symbol) && enclosing.contains_key(symbol) ==> resolve(
            symbol,
            index,
            enclosing,
        ) == resolve(enclosing[symbol], index, enclosing),
{
    if !index.contains_key(symbol) && enclosing.contains_key(symbol) {
        let outer = enclosing[symbol];
        let n = enclosing.len();
        if resolve(outer, index, enclosing) !is Endless {
            assert(resolve_within(symbol, index, enclosing, n + 1) == resolve(
                outer,
                index,
                enclosing,
            ));
            law_resolution_is_final(symbol, index, enclosing, n + 1);
        } else if resolve(symbol, index, enclosing) !is Endless {
            assert(n > 0);
            law_resolution_is_final(outer, index, enclosing, (n - 1) as nat);
        }
    }
}

/// A call whose target is not known, with the node that makes it.
pub struct OpenCall {
    pub reference: SymbolReference,
    pub source: NodeIndex,
}

/// Edges that were found, calls that were not resolved, and for each variable that
/// the result of a call was assigned to, the function that was called.
#[verifier::ext_equal]
pub struct Wiring {
    pub plan: Plan,
    pub open_calls: Seq<OpenCall>,
    pub assigned: Seq<Seq<char>>,
    pub called: Map<Seq<char>, Seq<char>>,
}

#[verifier::ext_equal]
pub enum WiringStage {
    Going(Wiring),
    Unsupported,
}

/// The function that a call leads to: the node that its target stands for, or the
/// initializer of the type that is its target.
pub open spec fn callee(
    reference: SymbolReference,
    target: Resolution,
    index: Map<Seq<char>, NodeIndex>,
    inits: Map<Seq<char>, Seq<char>>,
) -> Option<Seq<char>> {
    match target {
        Resolution::Found(symbol) => Some(symbol),
        _ => match reference.target_symbol {
            Some(symbol) => if inits.contains_key(symbol@) && index.contains_key(
                inits[symbol@],
            ) {
                Some(inits[symbol@])
            } else {
                None
            },
            None => None,
        },
    }
}

impl Wiring {
    /// Records the function whose result a variable gets.
    pub open spec fn with_assignment(
        self,
        variable: Option<String>,
        function: Seq<char>,
    ) -> Wiring {
        match variable {
            None => self,
            Some(symbol) => Wiring {
                assigned: if self.called.contains_key(symbol@) {
                    self.assigned
                } else {
                    self.assigned.push(symbol@)
                },
                called: self.called.insert(symbol@, function),
                ..self
            },
        }
    }

    pub open spec fn with_link(
        self,
        source: NodeIndex,
        target: NodeIndex,
        kind: EdgeKind,
    ) -> WiringStage {
        match self.plan.with_link(source, target, kind) {
            Stage::Going(plan) => WiringStage::Going(Wiring { plan, ..self }),
            _ => WiringStage::Unsupported,
        }
    }

    /// Adds a call: an edge if it is known where it leads, or else a call that stays
    /// open.
    pub open spec fn with_call(
        self,
        reference: SymbolReference,
        source: NodeIndex,
        target: Resolution,
        inits: Map<Seq<char>, Seq<char>>,
    ) -> WiringStage {
        match callee(reference, target, self.plan.index, inits) {
            Some(function) => match self.with_link(
                source,
                self.plan.index[function],
                EdgeKind::Call,
            ) {
                WiringStage::Going(wiring) => WiringStage::Going(
                    wiring.with_assignment(reference.assigned_to, function),
                ),
                WiringStage::Unsupported => WiringStage::Unsupported,
            },
            None => WiringStage::Going(
                Wiring { open_calls: self.open_calls.push(OpenCall { reference, source }), ..self },
            ),
        }
    }

    /// Adds what a reference says: nothing unless it occurs in a node. Reads, writes
    /// and decorations are edges if their target is known.
    pub open spec fn with_reference(
        self,
        reference: SymbolReference,
        enclosing: Map<Seq<char>, Seq<char>>,
        inits: Map<Seq<char>, Seq<char>>,
    ) -> WiringStage {
        let index = self.plan.index;
        let source = resolve(reference.enclosing_symbol@, index, enclosing);
        let target = match reference.target_symbol {
            Some(symbol) => resolve(symbol@, index, enclosing),
            None => Resolution::Nothing,
        };
        if source is Endless || target is Endless {
            WiringStage::Unsupported
        } else {
            match source {
                Resolution::Found(symbol) => {
                    let source_idx = index[symbol];
                    if reference.role == ReferenceRole::Call {
                        self.with_call(reference, source_idx, target, inits)
                    } else {
                        match target {
                            Resolution::Found(target_symbol) => self.with_link(
                                source_idx,
                                index[target_symbol],
                                match reference.role {
                                    ReferenceRole::Read => EdgeKind::Read,
                                    ReferenceRole::Write => EdgeKind::Write,
                                    _ => EdgeKind::Annotates,
                                },
                            ),
                            _ => WiringStage::Going(self),
                        }
                    }
                },
                _ => WiringStage::Going(self),
            }
        }
    }
}

/// Adds what the references of a list say.
pub open spec fn wire_references(
    stage: WiringStage,
    references: Seq<SymbolReference>,
    enclosing: Map<Seq<char>, Seq<char>>,
    inits: Map<Seq<char>, Seq<char>>,
) -> WiringStage
    decreases references.len(),
{
    if references.len() == 0 {
        stage
    } else {
        match wire_references(stage, references.drop_last(), enclosing, inits) {
            WiringStage::Going(wiring) => wiring.with_reference(
                references.last(),
                enclosing,
                inits,
            ),
            WiringStage::Unsupported => WiringStage::Unsupported,
        }
    }
}

/// Adds what the references of documents say.
pub open spec fn wire_documents(
    stage: WiringStage,
    documents: Seq<DocumentSemantics>,
    enclosing: Map<Seq<char>, Seq<char>>,
    inits: Map<Seq<char>, Seq<char>>,
) -> WiringStage
    decreases documents.len(),
{
    if documents.len() == 0 {
        stage
    } else {
        wire_references(
            wire_documents(stage, documents.drop_last(), enclosing, inits),
            documents.last().references@,
            enclosing,
            inits,
        )
    }
}

/// Those types of a list that are registered.
pub open spec fn registered(
    type_ids: Seq<Seq<char>>,
    types: Map<Seq<char>, TypeInfoView>,
) -> Seq<Seq<char>>
    decreases type_ids.len(),
{
    if type_ids.len() == 0 {
        Seq::empty()
    } else {
        let rest = registered(type_ids.drop_last(), types);
        if types.contains_key(type_ids.last()) {
            rest.push(type_ids.last())
        } else {
            rest
        }
    }
}

/// A node with the registered types that a definition gives it.
pub open spec fn typed_node(
    node: NodeView,
    def: SymbolDefinition,
    types: Map<Seq<char>, TypeInfoView>,
) -> NodeView {
    match (def.details, node) {
        (SymbolDetails::Function(details), NodeView::Function(f)) => NodeView::Function(
            FunctionView {
                return_types: f.return_types + registered(
                    text::texts(details.return_types@),
                    types,
                ),
                ..f
            },
        ),
        (SymbolDetails::Variable(details), NodeView::Variable(v)) => match details.var_type {
            Some(type_id) => if types.contains_key(type_id@) {
                NodeView::Variable(VariableView { var_type: Some(type_id@), ..v })
            } else {
                node
            },
            None => node,
        },
        _ => node,
    }
}

/// Gives nodes the registered types of their definitions.
pub open spec fn with_types(plan: Plan, definitions: Seq<SymbolDefinition>) -> Plan
    decreases definitions.len(),
{
    if definitions.len() == 0 {
        plan
    } else {
        let rest = with_types(plan, definitions.drop_last());
        let def = definitions.last();
        if rest.index.contains_key(def.symbol_id@) {
            let idx = rest.index[def.symbol_id@];
            rest.with_node_at(idx, typed_node(rest.node_at(idx), def, rest.types))
        } else {
            rest
        }
    }
}

/// The type that the result of a function gives to a variable: the first return type
/// of an external function, if it is registered.
pub open spec fn returned_type(
    function: NodeView,
    types: Map<Seq<char>, TypeInfoView>,
) -> Option<Seq<char>> {
    match function {
        NodeView::Function(f) => if f.core.is_external && f.return_types.len() > 0
            && types.contains_key(f.return_types[0]) {
            Some(f.return_types[0])
        } else {
            None
        },
        NodeView::Variable(_) => None,
    }
}

/// Gives a variable without a type the type of the result that it is assigned.
pub open spec fn with_returned_type(
    plan: Plan,
    variable: Seq<char>,
    function: Seq<char>,
) -> Plan {
    if plan.index.contains_key(variable) && plan.index.contains_key(function) {
        let idx = plan.index[variable];
        match plan.node_at(idx) {
            NodeView::Variable(v) => match returned_type(
                plan.node_at(plan.index[function]),
                plan.types,
            ) {
                Some(type_id) => if v.var_type is None {
                    plan.with_node_at(
                        idx,
                        NodeView::Variable(VariableView { var_type: Some(type_id), ..v }),
                    )
                } else {
                    plan
                },
                None => plan,
            },
            NodeView::Function(_) => plan,
        }
    } else {
        plan
    }
}

/// Does so for each variable of a list.
pub open spec fn with_returned_types(
    plan: Plan,
    assigned: Seq<Seq<char>>,
    called: Map<Seq<char>, Seq<char>>,
) -> Plan
    decreases assigned.len(),
{
    if assigned.len() == 0 {
        plan
    } else {
        with_returned_type(
            with_returned_types(plan, assigned.drop_last(), called),
            assigned.last(),
            called[assigned.last()],
        )
    }
}

/// Whether a node is a method of a type.
pub open spec fn is_method_of(node: NodeView, scope: Seq<char>) -> bool {
    match node {
        NodeView::Function(f) => f.core.scope == Some(scope),
        NodeView::Variable(_) => false,
    }
}

/// The methods of a type that have a name, in the order of the symbols of a list.
pub open spec fn methods_named(
    plan: Plan,
    symbols: Seq<Seq<char>>,
    scope: Seq<char>,
    name: Seq<char>,
) -> Seq<NodeIndex>
    decreases symbols.len(),
{
    if symbols.len() == 0 {
        Seq::empty()
    } else {
        let rest = methods_named(plan, symbols.drop_last(), scope, name);
        let idx = plan.index[symbols.last()];
        let node = plan.node_at(idx);
        if is_method_of(node, scope) && node.node_core().name == name {
            rest.push(idx)
        } else {
            rest
        }
    }
}

/// The methods of a type that have a name.
pub open spec fn methods(plan: Plan, scope: Seq<char>, name: Seq<char>) -> Seq<NodeIndex> {
    methods_named(plan, plan.symbols, scope, name)
}

/// Adds edges from a method to each of a list of others.
pub open spec fn link_each(
    stage: Stage,
    source: NodeIndex,
    targets: Seq<NodeIndex>,
    kind: EdgeKind,
) -> Stage
    decreases targets.len(),
{
    if targets.len() == 0 {
        stage
    } else {
        match link_each(stage, source, targets.drop_last(), kind) {
            Stage::Going(plan) => plan.with_link(source, targets.last(), kind),
            other => other,
        }
    }
}

/// Adds edges from a method to the methods of its name in a list of types.
pub open spec fn link_implementations(
    stage: Stage,
    plan: Plan,
    source: NodeIndex,
    name: Seq<char>,
    concrete: Seq<Seq<char>>,
) -> Stage
    decreases concrete.len(),
{
    if concrete.len() == 0 {
        stage
    } else {
        link_each(
            link_implementations(stage, plan, source, name, concrete.drop_last()),
            source,
            methods(plan, concrete.last(), name),
            EdgeKind::OverriddenBy,
        )
    }
}

/// Adds edges from the methods of interfaces to those that implement them.
pub open spec fn link_overrides(stage: Stage, plan: Plan, symbols: Seq<Seq<char>>) -> Stage
    decreases symbols.len(),
{
    if symbols.len() == 0 {
        stage
    } else {
        let rest = link_overrides(stage, plan, symbols.drop_last());
        let idx = plan.index[symbols.last()];
        match plan.node_at(idx) {
            NodeView::Function(f) => match f.core.scope {
                Some(scope) => if f.is_interface_method && plan.implementors.contains_key(scope) {
                    link_implementations(
                        rest,
                        plan,
                        idx,
                        f.core.name,
                        plan.implementors[scope],
                    )
                } else {
                    rest
                },
                None => rest,
            },
            NodeView::Variable(_) => rest,
        }
    }
}

/// Where an open call leads by the type of its receiver.
#[verifier::ext_equal]
pub enum Recovery {
    Target(NodeIndex),
    Unknown,
    Endless,
}

/// A call on a variable of a known type leads to the first method of that type with
/// the name.
pub open spec fn recovered(
    plan: Plan,
    reference: SymbolReference,
    enclosing: Map<Seq<char>, Seq<char>>,
) -> Recovery {
    match (reference.receiver, reference.method_name) {
        (Some(receiver), Some(method)) => match resolve(receiver@, plan.index, enclosing) {
            Resolution::Endless => Recovery::Endless,
            Resolution::Nothing => Recovery::Unknown,
            Resolution::Found(symbol) => match plan.node_at(plan.index[symbol]) {
                NodeView::Variable(v) => match v.var_type {
                    Some(type_id) => {
                        let candidates = methods(plan, type_id, method@);
                        if candidates.len() > 0 {
                            Recovery::Target(candidates[0])
                        } else {
                            Recovery::Unknown
                        }
                    },
                    None => Recovery::Unknown,
                },
                NodeView::Function(_) => Recovery::Unknown,
            },
        },
        _ => Recovery::Unknown,
    }
}

/// The edges of calls that were recovered, and how many were not.
#[verifier::ext_equal]
pub struct Recovered {
    pub stage: Stage,
    pub left: nat,
}

/// Adds edges for the open calls of a list, as far as they can be recovered.
pub open spec fn recover_calls(
    stage: Stage,
    plan: Plan,
    calls: Seq<OpenCall>,
    enclosing: Map<Seq<char>, Seq<char>>,
) -> Recovered
    decreases calls.len(),
{
    if calls.len() == 0 {
        Recovered { stage, left: 0 }
    } else {
        let rest = recover_calls(stage, plan, calls.drop_last(), enclosing);
        let call = calls.last();
        match rest.stage {
            Stage::Going(so_far) => match recovered(plan, call.reference, enclosing) {
                Recovery::Target(target) => Recovered {
                    stage: so_far.with_link(call.source, target, EdgeKind::Call),
                    left: rest.left,
                },
                Recovery::Unknown => Recovered { left: rest.left + 1, ..rest },
                Recovery::Endless => Recovered { stage: Stage::Unsupported, left: rest.left },
            },
            _ => rest,
        }
    }
}

/// How many references documents hold.
pub open spec fn reference_count(documents: Seq<DocumentSemantics>) -> nat
    decreases documents.len(),
{
    if documents.len() == 0 {
        0
    } else {
        reference_count(documents.drop_last()) + documents.last().references@.len()
    }
}

/// How much of the source a graph accounts for.
#[verifier::ext_equal]
pub struct CoverageView {
    pub total_references: nat,
    pub unresolved_calls: nat,
    pub total_functions: nat,
    pub functions_with_explicit_fragments: nat,
}

/// A graph with its coverage.
#[verifier::ext_equal]
pub struct Description {
    pub plan: Plan,
    pub coverage: CoverageView,
}

/// Which graph a model describes.
#[verifier::ext_equal]
pub enum Outcome {
    Described(Description),
    Refused(Seq<char>),
    Unsupported,
}

pub open spec fn is_function_definition(def: SymbolDefinition) -> bool {
    def.kind == SymbolKind::Function
}

/// The edges of a plan whose nodes and types are known, and its coverage.
pub open spec fn connected(plan: Plan, data: SemanticData) -> Outcome {
    let definitions = semantic::document_definitions(data.documents@);
    let enclosing = semantic::enclosing_of(data.definitions());
    let start = Wiring {
        plan,
        open_calls: Seq::empty(),
        assigned: Seq::empty(),
        called: Map::empty(),
    };
    match wire_documents(
        WiringStage::Going(start),
        data.documents@,
        enclosing,
        initializers(plan, definitions),
    ) {
        WiringStage::Unsupported => Outcome::Unsupported,
        WiringStage::Going(wiring) => {
            let typed = with_returned_types(
                with_types(wiring.plan, definitions),
                wiring.assigned,
                wiring.called,
            );
            let linked = link_overrides(Stage::Going(typed), typed, typed.symbols);
            let rest = recover_calls(linked, typed, wiring.open_calls, enclosing);
            match rest.stage {
                Stage::Going(full) => {
                    let coverage = CoverageView {
                        total_references: reference_count(data.documents@),
                        unresolved_calls: rest.left,
                        total_functions: crate::domain::node::count_where(
                            definitions,
                            |def: SymbolDefinition| is_function_definition(def),
                        ),
                        functions_with_explicit_fragments: crate::domain::node::count_where(
                            definitions,
                            |def: SymbolDefinition| fragments::has_explicit_spans(def),
                        ),
                    };
                    if coverage.total_references <= usize::MAX {
                        Outcome::Described(Description { plan: full, coverage })
                    } else {
                        Outcome::Unsupported
                    }
                },
                _ => Outcome::Unsupported,
            }
        },
    }
}

/// Which graph a model describes, given the sources of its documents.
pub open spec fn described<S: SizeFunction, D: DocumentationScorer>(
    size_function: S,
    doc_scorer: D,
    data: SemanticData,
    sources: Seq<Seq<char>>,
) -> Outcome {
    match allocated(size_function, doc_scorer, data, sources) {
        Stage::Going(plan) => connected(plan, data),
        Stage::Refused(symbol) => Outcome::Refused(symbol),
        Stage::Unsupported => Outcome::Unsupported,
    }
}

} // verus!
