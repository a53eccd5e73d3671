//! Builds context graphs from semantic models.

use crate::domain::digraph;
use crate::domain::edge::EdgeKind;
use crate::domain::fragments;
use crate::domain::fragments::{
    check_spans, convert_span, create_context_fragments, create_external_surface,
    create_node_from_definition, create_type_info, extract_signature, infer_node_type_from_kind,
    Fragments,
};
use crate::domain::graph::{ContextGraph, GraphCoverage, NodeIndex};
use crate::domain::node::{ContextFragment, Node, NodeCore, NodeView};
use crate::domain::plan;
use crate::domain::plan::{
    OpenCall, Outcome, Plan, Recovery, Resolution, Stage, Wiring, WiringStage,
};
use crate::domain::policy::{DocumentationScorer, NodeInfo, SizeFunction};
use crate::domain::score::Score;
use crate::domain::semantic;
use crate::domain::semantic::{
    DocumentSemantics, Mutability, ReferenceRole, SemanticData, SymbolDefinition, SymbolDetails,
    SymbolId, SymbolKind, SymbolReference,
};
use crate::domain::symbol_table::SymbolTable;
use crate::domain::text;
use crate::domain::text::{copy_texts, extension_of, join, lowercase, same_text};
use crate::domain::type_registry::TypeInfo;
use vstd::prelude::*;
use vstd::string::StringExecFns;

verus! {

/// Builds context graphs.
pub struct GraphBuilder<S: SizeFunction, D: DocumentationScorer> {
    pub size_function: Box<S>,
    pub doc_scorer: Box<D>,
}

/// What came of a step.
#[derive(Debug, Clone, Copy, PartialEq, Eq, Structural)]
enum Step {
    Done,
    Refused,
    Unsupported,
}

/// What a graph holds after a node was added.
proof fn lemma_plan_add_node(before: ContextGraph, after: ContextGraph, symbol: Seq<char>, node: Node)
    requires
        before.nodes().len() < u32::MAX,
        after.nodes() == before.nodes().push(node),
        after.links() == before.links(),
        after.symbol_to_node@ == before.symbol_to_node@.insert(
            symbol,
            NodeIndex { ix: before.nodes().len() as u32 },
        ),
        after.symbol_to_node.symbols() == if before.symbol_to_node@.contains_key(symbol) {
            before.symbol_to_node.symbols()
        } else {
            before.symbol_to_node.symbols().push(symbol)
        },
        after.type_registry == before.type_registry,
    ensures
        plan::plan_of(after) == plan::plan_of(before).with_node(symbol, node@),
{
    assert(plan::plan_of(after).nodes =~= plan::plan_of(before).nodes.push(node@));
}

/// What a graph holds after a node was changed.
proof fn lemma_plan_update(before: ContextGraph, after: ContextGraph, idx: NodeIndex, node: Node)
    requires
        before.has(idx),
        after.nodes() == before.nodes().update(idx.ix as int, node),
        after.links() == before.links(),
        after.symbol_to_node == before.symbol_to_node,
        after.type_registry == before.type_registry,
    ensures
        plan::plan_of(after) == plan::plan_of(before).with_node_at(idx, node@),
{
    assert(plan::plan_of(after).nodes =~= plan::plan_of(before).nodes.update(
        idx.ix as int,
        node@,
    ));
}

fn copy_optional(source: &Option<String>) -> (r: Option<String>)
    ensures
        r == *source,
{
    match source {
        Some(t) => Some(t.clone()),
        None => None,
    }
}

/// Whether the first variable with a symbol is mutable, or there is none.
pub open spec fn mutable_among(definitions: Seq<SymbolDefinition>, symbol: Seq<char>) -> bool
    decreases definitions.len(),
{
    if definitions.len() == 0 {
        true
    } else {
        let def = definitions[0];
        match def.details {
            SymbolDetails::Variable(details) => if def.symbol_id@ == symbol {
                details.mutability == Mutability::Mutable
            } else {
                mutable_among(definitions.drop_first(), symbol)
            },
            _ => mutable_among(definitions.drop_first(), symbol),
        }
    }
}

impl<S: SizeFunction, D: DocumentationScorer> GraphBuilder<S, D> {
    pub fn new(size_function: Box<S>, doc_scorer: Box<D>) -> (r: Self)
        ensures
            r.size_function == size_function,
            r.doc_scorer == doc_scorer,
    {
        GraphBuilder { size_function, doc_scorer }
    }

    /// Scores the documentation of a definition, given its signature and language.
    pub fn score_definition(
        &self,
        def: &SymbolDefinition,
        signature: Option<String>,
        language: String,
    ) -> (r: Score)
        ensures
            r == plan::score_with(
                *self.doc_scorer,
                *def,
                text::optional_text(signature),
                language@,
            ),
    {
        let documentation = join(&def.documentation, "\n\n");
        let doc_text: Option<&str> = if documentation.as_str().is_empty() {
            None
        } else {
            Some(documentation.as_str())
        };
        let node_info = NodeInfo {
            node_type: infer_node_type_from_kind(&def.kind),
            name: def.name.clone(),
            signature,
            language: Some(language),
        };
        self.doc_scorer.score(&node_info, doc_text)
    }

    /// Registers a type.
    fn register_type(
        &self,
        graph: &mut ContextGraph,
        def: &SymbolDefinition,
        info: TypeInfo,
    )
        requires
            old(graph).wf(),
        ensures
            final(graph).wf(),
            plan::plan_of(*final(graph)) == plan::plan_of(*old(graph)).with_type(
                def.symbol_id@,
                info@,
            ),
            final(graph).nodes() == old(graph).nodes(),
    {
        let ghost before = plan::plan_of(*graph);
        graph.type_registry.register(def.symbol_id.clone(), info);
        assert(plan::plan_of(*graph).types =~= before.types.insert(def.symbol_id@, info@));
    }

    /// Registers a type as implementor of each interface of a list.
    fn register_implementors(
        &self,
        graph: &mut ContextGraph,
        interfaces: &Vec<String>,
        symbol: &String,
    )
        requires
            old(graph).wf(),
        ensures
            final(graph).wf(),
            plan::plan_of(*final(graph)) == plan::plan_of(*old(graph)).with_implementors(
                text::texts(interfaces@),
                symbol@,
            ),
    {
        let ghost before = plan::plan_of(*graph);
        let ghost all = text::texts(interfaces@);
        let mut i: usize = 0;
        assert(all.take(0) =~= Seq::empty());
        while i < interfaces.len()
            invariant
                graph.wf(),
                all == text::texts(interfaces@),
                i <= interfaces@.len(),
                plan::plan_of(*graph) == before.with_implementors(all.take(i as int), symbol@),
            decreases interfaces@.len() - i,
        {
            let ghost middle = plan::plan_of(*graph);
            graph.type_registry.register_implementor(interfaces[i].clone(), symbol.clone());
            proof {
                assert(all.take(i + 1).drop_last() =~= all.take(i as int));
                assert(plan::plan_of(*graph).types =~= middle.types);
                assert(plan::plan_of(*graph) == middle.with_implementor(all[i as int], symbol@));
            }
            i += 1;
        }
        assert(all.take(i as int) =~= all);
    }

    /// Adds the node of a definition.
    fn add_definition_node(
        &self,
        graph: &mut ContextGraph,
        def: &SymbolDefinition,
        surface_fragment: ContextFragment,
        implementation_fragment: Option<ContextFragment>,
        doc_score: Score,
        is_external: bool,
        path: &String,
        is_interface_method: bool,
    ) -> (r: Step)
        requires
            old(graph).wf(),
        ensures
            final(graph).wf(),
            ({
                let stage = plan::add_node(
                    plan::plan_of(*old(graph)),
                    *def,
                    Fragments {
                        surface: surface_fragment@,
                        implementation: crate::domain::node::optional_fragment(
                            implementation_fragment,
                        ),
                    },
                    doc_score,
                    is_external,
                    path@,
                    is_interface_method,
                );
                match r {
                    Step::Done => stage == Stage::Going(plan::plan_of(*final(graph))),
                    Step::Refused => stage == Stage::Refused(def.symbol_id@),
                    Step::Unsupported => stage == Stage::Unsupported,
                }
            }),
    {
        let count: usize = graph.node_count();
        let core_value = NodeCore::with_fragments(
            count as u32,
            def.name.clone(),
            copy_optional(&def.enclosing_symbol),
            surface_fragment,
            implementation_fragment,
            convert_span(&def.span),
            doc_score,
            copy_texts(&def.documentation),
            is_external,
            path.clone(),
        );
        let ghost parts = Fragments {
            surface: surface_fragment@,
            implementation: crate::domain::node::optional_fragment(implementation_fragment),
        };
        let ghost core_view = plan::core_of(
            count as u32,
            *def,
            parts,
            doc_score,
            is_external,
            path@,
        );
        assert(core_value@ =~= core_view);
        match create_node_from_definition(core_value, def, is_interface_method) {
            None => Step::Refused,
            Some(node) => {
                if count >= u32::MAX as usize {
                    return Step::Unsupported;
                }
                let ghost before = *graph;
                graph.add_node(def.symbol_id.clone(), node);
                proof {
                    lemma_plan_add_node(before, *graph, def.symbol_id@, node);
                }
                Step::Done
            },
        }
    }

    /// Adds a definition of a document.
    fn add_internal(
        &self,
        graph: &mut ContextGraph,
        def: &SymbolDefinition,
        path: &String,
        source: &str,
    ) -> (r: Step)
        requires
            old(graph).wf(),
        ensures
            final(graph).wf(),
            ({
                let stage = plan::add_internal(
                    *self.size_function,
                    *self.doc_scorer,
                    plan::plan_of(*old(graph)),
                    *def,
                    path@,
                    source@,
                );
                match r {
                    Step::Done => stage == Stage::Going(plan::plan_of(*final(graph))),
                    Step::Refused => stage == Stage::Refused(def.symbol_id@),
                    Step::Unsupported => stage == Stage::Unsupported,
                }
            }),
    {
        if !check_spans(def, source, &*self.size_function) {
            return Step::Unsupported;
        }
        let is_interface_method: bool = def.kind == SymbolKind::Function && match &def.details {
            SymbolDetails::Function(f) => f.modifiers.is_abstract,
            _ => false,
        };
        let (surface_fragment, implementation_fragment) = create_context_fragments(
            def,
            source,
            &*self.size_function,
            is_interface_method,
        );
        let signature = extract_signature(def);
        let language = lowercase(extension_of(path.as_str()).as_str());
        let doc_score = self.score_definition(def, signature, language);
        match def.kind {
            SymbolKind::Type => {
                let info = create_type_info(def, surface_fragment, doc_score);
                self.register_type(graph, def, info);
                if let SymbolDetails::Type(t) = &def.details {
                    self.register_implementors(graph, &t.implements, &def.symbol_id);
                    self.register_implementors(graph, &t.inherits, &def.symbol_id);
                }
                Step::Done
            },
            SymbolKind::Function | SymbolKind::Variable => self.add_definition_node(
                graph,
                def,
                surface_fragment,
                implementation_fragment,
                doc_score,
                def.is_external,
                path,
                is_interface_method,
            ),
        }
    }

    /// Adds an external symbol, unless a document defines it.
    fn add_external(&self, graph: &mut ContextGraph, def: &SymbolDefinition) -> (r: Step)
        requires
            old(graph).wf(),
        ensures
            final(graph).wf(),
            ({
                let stage = plan::add_external(
                    *self.size_function,
                    *self.doc_scorer,
                    plan::plan_of(*old(graph)),
                    *def,
                );
                match r {
                    Step::Done => stage == Stage::Going(plan::plan_of(*final(graph))),
                    Step::Refused => stage == Stage::Refused(def.symbol_id@),
                    Step::Unsupported => stage == Stage::Unsupported,
                }
            }),
    {
        if graph.symbol_to_node.contains_key(def.symbol_id.as_str())
            || graph.type_registry.contains(def.symbol_id.as_str()) {
            return Step::Done;
        }
        let signature = extract_signature(def);
        let surface_fragment = create_external_surface(def, &signature, &*self.size_function);
        let path = &def.location.file_path;
        let language = lowercase(extension_of(path.as_str()).as_str());
        let doc_score = self.score_definition(def, signature, language);
        match def.kind {
            SymbolKind::Type => {
                let info = create_type_info(def, surface_fragment, doc_score);
                self.register_type(graph, def, info);
                Step::Done
            },
            SymbolKind::Function | SymbolKind::Variable => self.add_definition_node(
                graph,
                def,
                surface_fragment,
                None,
                doc_score,
                true,
                path,
                false,
            ),
        }
    }
}

/// Why no graph was made.
enum Fault {
    Refused(SymbolId),
    Unsupported,
}

/// Once definitions cannot be added, nothing more is.
proof fn lemma_add_document_stuck<S: SizeFunction, D: DocumentationScorer>(
    size_function: S,
    doc_scorer: D,
    stage: Stage,
    definitions: Seq<SymbolDefinition>,
    path: Seq<char>,
    source: Seq<char>,
    k: int,
)
    requires
        0 <= k <= definitions.len(),
        !(plan::add_document(
            size_function,
            doc_scorer,
            stage,
            definitions.take(k),
            path,
            source,
        ) is Going),
    ensures
        plan::add_document(size_function, doc_scorer, stage, definitions, path, source)
            == plan::add_document(
            size_function,
            doc_scorer,
            stage,
            definitions.take(k),
            path,
            source,
        ),
    decreases definitions.len(),
{
    if k == definitions.len() {
        assert(definitions.take(k) =~= definitions);
    } else {
        assert(definitions.drop_last().take(k) =~= definitions.take(k));
        lemma_add_document_stuck(
            size_function,
            doc_scorer,
            stage,
            definitions.drop_last(),
            path,
            source,
            k,
        );
    }
}

proof fn lemma_add_documents_stuck<S: SizeFunction, D: DocumentationScorer>(
    size_function: S,
    doc_scorer: D,
    documents: Seq<DocumentSemantics>,
    sources: Seq<Seq<char>>,
    k: int,
)
    requires
        documents.len() == sources.len(),
        0 <= k <= documents.len(),
        !(plan::add_documents(size_function, doc_scorer, documents.take(k), sources.take(k))
            is Going),
    ensures
        plan::add_documents(size_function, doc_scorer, documents, sources) == plan::add_documents(
            size_function,
            doc_scorer,
            documents.take(k),
            sources.take(k),
        ),
    decreases documents.len(),
{
    if k == documents.len() {
        assert(documents.take(k) =~= documents);
        assert(sources.take(k) =~= sources);
    } else {
        assert(documents.drop_last().take(k) =~= documents.take(k));
        assert(sources.drop_last().take(k) =~= sources.take(k));
        lemma_add_documents_stuck(
            size_function,
            doc_scorer,
            documents.drop_last(),
            sources.drop_last(),
            k,
        );
        let stage = plan::add_documents(
            size_function,
            doc_scorer,
            documents.drop_last(),
            sources.drop_last(),
        );
        assert(documents.last().definitions@.take(0) =~= Seq::empty());
        lemma_add_document_stuck(
            size_function,
            doc_scorer,
            stage,
            documents.last().definitions@,
            documents.last().relative_path@,
            sources.last(),
            0,
        );
    }
}

proof fn lemma_add_externals_stuck<S: SizeFunction, D: DocumentationScorer>(
    size_function: S,
    doc_scorer: D,
    stage: Stage,
    definitions: Seq<SymbolDefinition>,
    k: int,
)
    requires
        0 <= k <= definitions.len(),
        !(plan::add_externals(size_function, doc_scorer, stage, definitions.take(k)) is Going),
    ensures
        plan::add_externals(size_function, doc_scorer, stage, definitions) == plan::add_externals(
            size_function,
            doc_scorer,
            stage,
            definitions.take(k),
        ),
    decreases definitions.len(),
{
    if k == definitions.len() {
        assert(definitions.take(k) =~= definitions);
    } else {
        assert(definitions.drop_last().take(k) =~= definitions.take(k));
        lemma_add_externals_stuck(size_function, doc_scorer, stage, definitions.drop_last(), k);
    }
}

/// Whether the end of a step agrees with a stage.
spec fn agrees(r: Result<(), Fault>, stage: Stage, graph: ContextGraph) -> bool {
    match r {
        Ok(_) => stage == Stage::Going(plan::plan_of(graph)),
        Err(Fault::Refused(symbol)) => stage == Stage::Refused(symbol@),
        Err(Fault::Unsupported) => stage == Stage::Unsupported,
    }
}

impl<S: SizeFunction, D: DocumentationScorer> GraphBuilder<S, D> {
    /// Adds the definitions of a document.
    fn add_document(
        &self,
        graph: &mut ContextGraph,
        document: &DocumentSemantics,
        source: &str,
    ) -> (r: Result<(), Fault>)
        requires
            old(graph).wf(),
        ensures
            final(graph).wf(),
            agrees(
                r,
                plan::add_document(
                    *self.size_function,
                    *self.doc_scorer,
                    Stage::Going(plan::plan_of(*old(graph))),
                    document.definitions@,
                    document.relative_path@,
                    source@,
                ),
                *final(graph),
            ),
    {
        let ghost start = Stage::Going(plan::plan_of(*graph));
        let ghost defs = document.definitions@;
        let mut i: usize = 0;
        assert(defs.take(0) =~= Seq::empty());
        while i < document.definitions.len()
            invariant
                start == Stage::Going(plan::plan_of(*old(graph))),
                defs == document.definitions@,
                graph.wf(),
                i <= defs.len(),
                Stage::Going(plan::plan_of(*graph)) == plan::add_document(
                    *self.size_function,
                    *self.doc_scorer,
                    start,
                    defs.take(i as int),
                    document.relative_path@,
                    source@,
                ),
            decreases defs.len() - i,
        {
            let def = &document.definitions[i];
            let step = self.add_internal(graph, def, &document.relative_path, source);
            proof {
                assert(defs.take(i + 1).drop_last() =~= defs.take(i as int));
                if step != Step::Done {
                    lemma_add_document_stuck(
                        *self.size_function,
                        *self.doc_scorer,
                        start,
                        defs,
                        document.relative_path@,
                        source@,
                        i + 1,
                    );
                }
            }
            match step {
                Step::Done => {},
                Step::Refused => {
                    return Err(Fault::Refused(def.symbol_id.clone()));
                },
                Step::Unsupported => {
                    return Err(Fault::Unsupported);
                },
            }
            i += 1;
        }
        assert(defs.take(i as int) =~= defs);
        Ok(())
    }

    /// Adds nodes and types.
    fn allocate(
        &self,
        graph: &mut ContextGraph,
        data: &SemanticData,
        sources: &Vec<String>,
    ) -> (r: Result<(), Fault>)
        requires
            old(graph).wf(),
            plan::plan_of(*old(graph)) == plan::empty_plan(),
            sources@.len() == data.documents@.len(),
        ensures
            final(graph).wf(),
            agrees(
                r,
                plan::allocated(
                    *self.size_function,
                    *self.doc_scorer,
                    *data,
                    text::texts(sources@),
                ),
                *final(graph),
            ),
    {
        let ghost docs = data.documents@;
        let ghost all = text::texts(sources@);
        let mut i: usize = 0;
        while i < data.documents.len()
            invariant
                docs == data.documents@,
                all == text::texts(sources@),
                sources@.len() == docs.len(),
                graph.wf(),
                i <= docs.len(),
                Stage::Going(plan::plan_of(*graph)) == plan::add_documents(
                    *self.size_function,
                    *self.doc_scorer,
                    docs.take(i as int),
                    all.take(i as int),
                ),
            decreases docs.len() - i,
        {
            let r = self.add_document(graph, &data.documents[i], sources[i].as_str());
            proof {
                assert(docs.take(i + 1).drop_last() =~= docs.take(i as int));
                assert(all.take(i + 1).drop_last() =~= all.take(i as int));
                assert(all.take(i + 1).last() == sources@[i as int]@);
                if r is Err {
                    lemma_add_documents_stuck(
                        *self.size_function,
                        *self.doc_scorer,
                        docs,
                        all,
                        i + 1,
                    );
                    let stage = plan::add_documents(
                        *self.size_function,
                        *self.doc_scorer,
                        docs,
                        all,
                    );
                    assert(data.external_symbols@.take(0) =~= Seq::empty());
                    lemma_add_externals_stuck(
                        *self.size_function,
                        *self.doc_scorer,
                        stage,
                        data.external_symbols@,
                        0,
                    );
                }
            }
            if let Err(fault) = r {
                return Err(fault);
            }
            i += 1;
        }
        assert(docs.take(i as int) =~= docs);
        assert(all.take(i as int) =~= all);
        let ghost start = Stage::Going(plan::plan_of(*graph));
        let ghost defs = data.external_symbols@;
        let mut j: usize = 0;
        assert(defs.take(0) =~= Seq::empty());
        while j < data.external_symbols.len()
            invariant
                start == plan::add_documents(
                    *self.size_function,
                    *self.doc_scorer,
                    data.documents@,
                    text::texts(sources@),
                ),
                defs == data.external_symbols@,
                graph.wf(),
                j <= defs.len(),
                Stage::Going(plan::plan_of(*graph)) == plan::add_externals(
                    *self.size_function,
                    *self.doc_scorer,
                    start,
                    defs.take(j as int),
                ),
            decreases defs.len() - j,
        {
            let def = &data.external_symbols[j];
            let step = self.add_external(graph, def);
            proof {
                assert(defs.take(j + 1).drop_last() =~= defs.take(j as int));
                if step != Step::Done {
                    lemma_add_externals_stuck(
                        *self.size_function,
                        *self.doc_scorer,
                        start,
                        defs,
                        j + 1,
                    );
                }
            }
            match step {
                Step::Done => {},
                Step::Refused => {
                    return Err(Fault::Refused(def.symbol_id.clone()));
                },
                Step::Unsupported => {
                    return Err(Fault::Unsupported);
                },
            }
            j += 1;
        }
        assert(defs.take(j as int) =~= defs);
        Ok(())
    }
}

/// What a symbol stands for in the graph.
enum Resolved {
    Found(SymbolId),
    Nothing,
    Endless,
}

impl Resolved {
    spec fn resolution(&self) -> Resolution {
        match self {
            Resolved::Found(symbol) => Resolution::Found(symbol@),
            Resolved::Nothing => Resolution::Nothing,
            Resolved::Endless => Resolution::Endless,
        }
    }
}

/// Resolves a symbol to the nearest symbol that is a node: itself, or one that
/// encloses it.
fn resolve_to_node_symbol(
    symbol: &str,
    graph: &ContextGraph,
    enclosing: &SymbolTable<SymbolId>,
) -> (r: Resolved)
    requires
        enclosing.wf(),
    ensures
        r.resolution() == plan::resolve(
            symbol@,
            graph.symbol_to_node@,
            semantic::table_texts(*enclosing),
        ),
{
    let ghost map = semantic::table_texts(*enclosing);
    let ghost index = graph.symbol_to_node@;
    proof {
        enclosing.lemma_key_count();
        assert(map.dom() =~= enclosing@.dom());
    }
    let mut current = symbol.to_owned();
    let mut steps: usize = enclosing.len();
    loop
        invariant
            enclosing.wf(),
            map == semantic::table_texts(*enclosing),
            index == graph.symbol_to_node@,
            plan::resolve_within(current@, index, map, steps as nat) == plan::resolve(
                symbol@,
                index,
                map,
            ),
        decreases steps,
    {
        if graph.symbol_to_node.contains_key(current.as_str()) {
            return Resolved::Found(current);
        }
        match enclosing.get(current.as_str()) {
            None => {
                return Resolved::Nothing;
            },
            Some(parent) => {
                if steps == 0 {
                    return Resolved::Endless;
                }
                assert(map[current@] == parent@);
                steps = steps - 1;
                current = parent.clone();
            },
        }
    }
}

/// Adds an edge, unless it leads back to where it starts. Returns whether there was
/// room for it.
fn add_link(
    graph: &mut ContextGraph,
    source: NodeIndex,
    target: NodeIndex,
    kind: EdgeKind,
) -> (r: bool)
    requires
        old(graph).wf(),
        old(graph).has(source),
        old(graph).has(target),
    ensures
        final(graph).wf(),
        final(graph).nodes() == old(graph).nodes(),
        final(graph).symbol_to_node == old(graph).symbol_to_node,
        final(graph).type_registry == old(graph).type_registry,
        plan::plan_of(*old(graph)).with_link(source, target, kind) == if r {
            Stage::Going(plan::plan_of(*final(graph)))
        } else {
            Stage::Unsupported
        },
{
    if source == target {
        return true;
    }
    if graph.edge_count() >= u32::MAX as usize {
        return false;
    }
    graph.add_edge(source, target, kind);
    true
}

/// The initializers of types.
fn find_initializers(graph: &ContextGraph, data: &SemanticData) -> (r: SymbolTable<SymbolId>)
    requires
        graph.wf(),
    ensures
        r.wf(),
        semantic::table_texts(r) == plan::initializers(
            plan::plan_of(*graph),
            semantic::document_definitions(data.documents@),
        ),
{
    let ghost the_plan = plan::plan_of(*graph);
    let ghost docs = data.documents@;
    let mut r: SymbolTable<SymbolId> = SymbolTable::new();
    let mut i: usize = 0;
    assert(semantic::table_texts(r) =~= Map::empty());
    while i < data.documents.len()
        invariant
            graph.wf(),
            the_plan == plan::plan_of(*graph),
            docs == data.documents@,
            r.wf(),
            i <= docs.len(),
            semantic::table_texts(r) == plan::initializers(
                the_plan,
                semantic::document_definitions(docs.take(i as int)),
            ),
        decreases docs.len() - i,
    {
        let defs = &data.documents[i].definitions;
        let ghost earlier = semantic::document_definitions(docs.take(i as int));
        let mut j: usize = 0;
        assert(earlier + defs@.take(0) =~= earlier);
        while j < defs.len()
            invariant
                graph.wf(),
                the_plan == plan::plan_of(*graph),
                r.wf(),
                j <= defs@.len(),
                semantic::table_texts(r) == plan::initializers(
                    the_plan,
                    earlier + defs@.take(j as int),
                ),
            decreases defs@.len() - j,
        {
            let def = &defs[j];
            proof {
                let more = earlier + defs@.take(j + 1);
                assert(more.drop_last() =~= earlier + defs@.take(j as int));
                assert(more.last() == *def);
            }
            if def.kind == SymbolKind::Function && same_text(def.name.as_str(), "__init__") {
                if let Some(parent) = &def.enclosing_symbol {
                    if graph.type_registry.contains(parent.as_str())
                        && graph.symbol_to_node.contains_key(def.symbol_id.as_str()) {
                        let ghost before = semantic::table_texts(r);
                        r.insert(parent.clone(), def.symbol_id.clone());
                        assert(semantic::table_texts(r) =~= before.insert(
                            parent@,
                            def.symbol_id@,
                        ));
                    }
                }
            }
            j += 1;
        }
        proof {
            assert(defs@.take(j as int) =~= defs@);
            assert(docs.take(i + 1).drop_last() =~= docs.take(i as int));
        }
        i += 1;
    }
    assert(docs.take(i as int) =~= docs);
    r
}

/// Edges that were found, and what is left of the references.
struct WiringState<'a> {
    graph: ContextGraph,
    open_calls: Vec<(&'a SymbolReference, NodeIndex)>,
    called: SymbolTable<SymbolId>,
}

spec fn open_calls_of(list: Seq<(&SymbolReference, NodeIndex)>) -> Seq<OpenCall> {
    list.map_values(
        |call: (&SymbolReference, NodeIndex)| OpenCall { reference: *call.0, source: call.1 },
    )
}

impl<'a> WiringState<'a> {
    spec fn wf(&self) -> bool {
        &&& self.graph.wf()
        &&& self.called.wf()
        &&& forall|i: int|
            0 <= i < self.open_calls@.len() ==> self.graph.has((#[trigger] self.open_calls@[i]).1)
    }

    spec fn wiring(&self) -> Wiring {
        Wiring {
            plan: plan::plan_of(self.graph),
            open_calls: open_calls_of(self.open_calls@),
            assigned: self.called.symbols(),
            called: semantic::table_texts(self.called),
        }
    }

    fn link(&mut self, source: NodeIndex, target: NodeIndex, kind: EdgeKind) -> (r: bool)
        requires
            old(self).wf(),
            old(self).graph.has(source),
            old(self).graph.has(target),
        ensures
            final(self).wf(),
            old(self).wiring().with_link(source, target, kind) == if r {
                WiringStage::Going(final(self).wiring())
            } else {
                WiringStage::Unsupported
            },
            final(self).graph.symbol_to_node == old(self).graph.symbol_to_node,
    {
        add_link(&mut self.graph, source, target, kind)
    }

    fn assign(&mut self, variable: &Option<SymbolId>, function: &SymbolId)
        requires
            old(self).wf(),
        ensures
            final(self).wf(),
            final(self).wiring() == old(self).wiring().with_assignment(*variable, function@),
    {
        if let Some(symbol) = variable {
            let ghost before = self.wiring();
            self.called.insert(symbol.clone(), function.clone());
            proof {
                assert(semantic::table_texts(self.called) =~= before.called.insert(
                    symbol@,
                    function@,
                ));
            }
        }
    }

    /// Adds a call.
    fn add_call(
        &mut self,
        reference: &'a SymbolReference,
        source: NodeIndex,
        target: &Resolved,
        inits: &SymbolTable<SymbolId>,
    ) -> (r: bool)
        requires
            old(self).wf(),
            old(self).graph.has(source),
            inits.wf(),
            match target.resolution() {
                Resolution::Found(symbol) => old(self).graph.symbol_to_node@.contains_key(symbol),
                _ => true,
            },
        ensures
            final(self).wf(),
            old(self).wiring().with_call(
                *reference,
                source,
                target.resolution(),
                semantic::table_texts(*inits),
            ) == if r {
                WiringStage::Going(final(self).wiring())
            } else {
                WiringStage::Unsupported
            },
    {
        let ghost before = self.wiring();
        let callee: Option<SymbolId> = match target {
            Resolved::Found(symbol) => Some(symbol.clone()),
            _ => match &reference.target_symbol {
                Some(symbol) => match inits.get(symbol.as_str()) {
                    Some(init) => if self.graph.symbol_to_node.contains_key(init.as_str()) {
                        Some(init.clone())
                    } else {
                        None
                    },
                    None => None,
                },
                None => None,
            },
        };
        assert(text::optional_text(callee) == plan::callee(
            *reference,
            target.resolution(),
            self.graph.symbol_to_node@,
            semantic::table_texts(*inits),
        ));
        match callee {
            Some(function) => {
                let target_idx = match self.graph.get_node_by_symbol(function.as_str()) {
                    Some(idx) => idx,
                    None => {
                        return true;
                    },
                };
                if !self.link(source, target_idx, EdgeKind::Call) {
                    return false;
                }
                self.assign(&reference.assigned_to, &function);
                true
            },
            None => {
                self.open_calls.push((reference, source));
                proof {
                    assert(open_calls_of(self.open_calls@) =~= before.open_calls.push(
                        OpenCall { reference: *reference, source },
                    ));
                }
                true
            },
        }
    }

    /// Adds what a reference says.
    fn add_reference(
        &mut self,
        reference: &'a SymbolReference,
        enclosing: &SymbolTable<SymbolId>,
        inits: &SymbolTable<SymbolId>,
    ) -> (r: bool)
        requires
            old(self).wf(),
            enclosing.wf(),
            inits.wf(),
        ensures
            final(self).wf(),
            old(self).wiring().with_reference(
                *reference,
                semantic::table_texts(*enclosing),
                semantic::table_texts(*inits),
            ) == if r {
                WiringStage::Going(final(self).wiring())
            } else {
                WiringStage::Unsupported
            },
    {
        let source = resolve_to_node_symbol(
            reference.enclosing_symbol.as_str(),
            &self.graph,
            enclosing,
        );
        let target = match &reference.target_symbol {
            Some(symbol) => resolve_to_node_symbol(symbol.as_str(), &self.graph, enclosing),
            None => Resolved::Nothing,
        };
        proof {
            lemma_resolved(
                reference.enclosing_symbol@,
                self.graph.symbol_to_node@,
                semantic::table_texts(*enclosing),
                semantic::table_texts(*enclosing).len(),
            );
            if let Some(symbol) = &reference.target_symbol {
                lemma_resolved(
                    symbol@,
                    self.graph.symbol_to_node@,
                    semantic::table_texts(*enclosing),
                    semantic::table_texts(*enclosing).len(),
                );
            }
        }
        let source_symbol = match source {
            Resolved::Endless => {
                return false;
            },
            Resolved::Found(symbol) => Some(symbol),
            Resolved::Nothing => None,
        };
        if let Resolved::Endless = target {
            return false;
        }
        let source_idx = match source_symbol {
            None => {
                return true;
            },
            Some(symbol) => match self.graph.get_node_by_symbol(symbol.as_str()) {
                Some(idx) => idx,
                None => {
                    return true;
                },
            },
        };
        if reference.role == ReferenceRole::Call {
            return self.add_call(reference, source_idx, &target, inits);
        }
        let kind = match reference.role {
            ReferenceRole::Read => EdgeKind::Read,
            ReferenceRole::Write => EdgeKind::Write,
            _ => EdgeKind::Annotates,
        };
        match target {
            Resolved::Found(symbol) => match self.graph.get_node_by_symbol(symbol.as_str()) {
                Some(target_idx) => self.link(source_idx, target_idx, kind),
                None => true,
            },
            _ => true,
        }
    }
}

/// A symbol that was found is a node.
proof fn lemma_resolved(
    symbol: Seq<char>,
    index: Map<Seq<char>, NodeIndex>,
    enclosing: Map<Seq<char>, Seq<char>>,
    steps: nat,
)
    ensures
        match plan::resolve_within(symbol, index, enclosing, steps) {
            Resolution::Found(found) => index.contains_key(found),
            _ => true,
        },
    decreases steps,
{
    if !index.contains_key(symbol) && enclosing.contains_key(symbol) && steps > 0 {
        lemma_resolved(enclosing[symbol], index, enclosing, (steps - 1) as nat);
    }
}

/// Once references cannot be wired, nothing more is.
proof fn lemma_wire_references_stuck(
    stage: WiringStage,
    references: Seq<SymbolReference>,
    enclosing: Map<Seq<char>, Seq<char>>,
    inits: Map<Seq<char>, Seq<char>>,
    k: int,
)
    requires
        0 <= k <= references.len(),
        plan::wire_references(stage, references.take(k), enclosing, inits) is Unsupported,
    ensures
        plan::wire_references(stage, references, enclosing, inits) is Unsupported,
    decreases references.len(),
{
    if k == references.len() {
        assert(references.take(k) =~= references);
    } else {
        assert(references.drop_last().take(k) =~= references.take(k));
        lemma_wire_references_stuck(stage, references.drop_last(), enclosing, inits, k);
    }
}

proof fn lemma_wire_documents_stuck(
    stage: WiringStage,
    documents: Seq<DocumentSemantics>,
    enclosing: Map<Seq<char>, Seq<char>>,
    inits: Map<Seq<char>, Seq<char>>,
    k: int,
)
    requires
        0 <= k <= documents.len(),
        plan::wire_documents(stage, documents.take(k), enclosing, inits) is Unsupported,
    ensures
        plan::wire_documents(stage, documents, enclosing, inits) is Unsupported,
    decreases documents.len(),
{
    if k == documents.len() {
        assert(documents.take(k) =~= documents);
    } else {
        assert(documents.drop_last().take(k) =~= documents.take(k));
        lemma_wire_documents_stuck(stage, documents.drop_last(), enclosing, inits, k);
        assert(documents.last().references@.take(0) =~= Seq::empty());
        lemma_wire_references_stuck(
            plan::wire_documents(stage, documents.drop_last(), enclosing, inits),
            documents.last().references@,
            enclosing,
            inits,
            0,
        );
    }
}

/// Adds what the references of all documents say.
fn wire<'a>(
    w: &mut WiringState<'a>,
    data: &'a SemanticData,
    enclosing: &SymbolTable<SymbolId>,
    inits: &SymbolTable<SymbolId>,
) -> (r: bool)
    requires
        old(w).wf(),
        enclosing.wf(),
        inits.wf(),
    ensures
        final(w).wf(),
        plan::wire_documents(
            WiringStage::Going(old(w).wiring()),
            data.documents@,
            semantic::table_texts(*enclosing),
            semantic::table_texts(*inits),
        ) == if r {
            WiringStage::Going(final(w).wiring())
        } else {
            WiringStage::Unsupported
        },
{
    let ghost start = WiringStage::Going(w.wiring());
    let ghost outer = semantic::table_texts(*enclosing);
    let ghost init_map = semantic::table_texts(*inits);
    let ghost docs = data.documents@;
    let mut i: usize = 0;
    assert(docs.take(0) =~= Seq::empty());
    while i < data.documents.len()
        invariant
            start == WiringStage::Going(old(w).wiring()),
            outer == semantic::table_texts(*enclosing),
            init_map == semantic::table_texts(*inits),
            docs == data.documents@,
            enclosing.wf(),
            inits.wf(),
            w.wf(),
            i <= docs.len(),
            WiringStage::Going(w.wiring()) == plan::wire_documents(
                start,
                docs.take(i as int),
                outer,
                init_map,
            ),
        decreases docs.len() - i,
    {
        let references = &data.documents[i].references;
        let ghost refs = references@;
        let ghost middle = WiringStage::Going(w.wiring());
        let mut j: usize = 0;
        proof {
            assert(refs.take(0) =~= Seq::empty());
            assert(docs.take(i + 1).drop_last() =~= docs.take(i as int));
        }
        while j < references.len()
            invariant
                start == WiringStage::Going(old(w).wiring()),
                outer == semantic::table_texts(*enclosing),
                init_map == semantic::table_texts(*inits),
                docs == data.documents@,
                i < docs.len(),
                refs == docs[i as int].references@,
                refs == references@,
                docs.take(i + 1).drop_last() == docs.take(i as int),
                middle == plan::wire_documents(start, docs.take(i as int), outer, init_map),
                enclosing.wf(),
                inits.wf(),
                w.wf(),
                j <= refs.len(),
                WiringStage::Going(w.wiring()) == plan::wire_references(
                    middle,
                    refs.take(j as int),
                    outer,
                    init_map,
                ),
            decreases refs.len() - j,
        {
            let done = w.add_reference(&references[j], enclosing, inits);
            proof {
                assert(refs.take(j + 1).drop_last() =~= refs.take(j as int));
                if !done {
                    lemma_wire_references_stuck(middle, refs, outer, init_map, j + 1);
                    assert(docs.take(i + 1).last() == docs[i as int]);
                    assert(plan::wire_documents(start, docs.take(i + 1), outer, init_map)
                        is Unsupported);
                    lemma_wire_documents_stuck(start, docs, outer, init_map, i + 1);
                }
            }
            if !done {
                return false;
            }
            j += 1;
        }
        assert(refs.take(j as int) =~= refs);
        i += 1;
    }
    assert(docs.take(i as int) =~= docs);
    true
}

/// Those types of a list that are registered.
fn registered_types(type_ids: &Vec<String>, graph: &ContextGraph) -> (r: Vec<String>)
    ensures
        text::texts(r@) == plan::registered(
            text::texts(type_ids@),
            plan::plan_of(*graph).types,
        ),
{
    let ghost types = plan::plan_of(*graph).types;
    let ghost all = text::texts(type_ids@);
    let mut r: Vec<String> = Vec::new();
    let mut i: usize = 0;
    assert(all.take(0) =~= Seq::empty());
    assert(text::texts(r@) =~= Seq::empty());
    while i < type_ids.len()
        invariant
            types == plan::plan_of(*graph).types,
            all == text::texts(type_ids@),
            i <= type_ids@.len(),
            text::texts(r@) == plan::registered(all.take(i as int), types),
        decreases type_ids@.len() - i,
    {
        assert(all.take(i + 1).drop_last() =~= all.take(i as int));
        if graph.type_registry.contains(type_ids[i].as_str()) {
            let ghost before = text::texts(r@);
            let type_id = type_ids[i].clone();
            r.push(type_id);
            assert(text::texts(r@) =~= before.push(type_id@));
        }
        i += 1;
    }
    assert(all.take(i as int) =~= all);
    r
}

/// Gives the node of a definition the registered types of the definition.
fn add_types(graph: &mut ContextGraph, def: &SymbolDefinition)
    requires
        old(graph).wf(),
    ensures
        final(graph).wf(),
        final(graph).symbol_to_node == old(graph).symbol_to_node,
        final(graph).type_registry == old(graph).type_registry,
        final(graph).nodes().len() == old(graph).nodes().len(),
        ({
            let before = plan::plan_of(*old(graph));
            plan::plan_of(*final(graph)) == if before.index.contains_key(def.symbol_id@) {
                let idx = before.index[def.symbol_id@];
                before.with_node_at(
                    idx,
                    plan::typed_node(before.node_at(idx), *def, before.types),
                )
            } else {
                before
            }
        }),
{
    let ghost start = *graph;
    let ghost before = plan::plan_of(*graph);
    let idx = match graph.get_node_by_symbol(def.symbol_id.as_str()) {
        Some(idx) => idx,
        None => {
            return;
        },
    };
    let ghost node_before = graph.at(idx);
    match &def.details {
        SymbolDetails::Function(details) => {
            let mut extra = registered_types(&details.return_types, graph);
            let ghost more = text::texts(extra@);
            if let Some(node) = digraph::node_weight_mut(&mut graph.graph, idx) {
                match node {
                    Node::Function(f) => {
                        let ghost had = text::texts(f.return_types@);
                        f.return_types.append(&mut extra);
                        assert(text::texts(f.return_types@) =~= had + more);
                    },
                    Node::Variable(_) => {},
                }
            }
        },
        SymbolDetails::Variable(details) => {
            let known: Option<String> = match &details.var_type {
                Some(type_id) => if graph.type_registry.contains(type_id.as_str()) {
                    Some(type_id.clone())
                } else {
                    None
                },
                None => None,
            };
            if let Some(type_id) = known {
                if let Some(node) = digraph::node_weight_mut(&mut graph.graph, idx) {
                    match node {
                        Node::Variable(v) => {
                            v.var_type = Some(type_id);
                        },
                        Node::Function(_) => {},
                    }
                }
            }
        },
        SymbolDetails::Type(_) => {},
    }
    proof {
        let node = graph.at(idx);
        assert(graph.nodes() =~= start.nodes().update(idx.ix as int, node));
        lemma_plan_update(start, *graph, idx, node);
        assert(before.node_at(idx) == node_before@);
        assert(node@ =~= plan::typed_node(before.node_at(idx), *def, before.types));
    }
}

/// Gives nodes the registered types of their definitions.
fn fill_types(graph: &mut ContextGraph, data: &SemanticData)
    requires
        old(graph).wf(),
    ensures
        final(graph).wf(),
        final(graph).symbol_to_node == old(graph).symbol_to_node,
        final(graph).type_registry == old(graph).type_registry,
        final(graph).nodes().len() == old(graph).nodes().len(),
        plan::plan_of(*final(graph)) == plan::with_types(
            plan::plan_of(*old(graph)),
            semantic::document_definitions(data.documents@),
        ),
{
    let ghost start = plan::plan_of(*graph);
    let ghost docs = data.documents@;
    let mut i: usize = 0;
    assert(docs.take(0) =~= Seq::empty());
    while i < data.documents.len()
        invariant
            start == plan::plan_of(*old(graph)),
            docs == data.documents@,
            graph.wf(),
            graph.symbol_to_node == old(graph).symbol_to_node,
            graph.type_registry == old(graph).type_registry,
            graph.nodes().len() == old(graph).nodes().len(),
            i <= docs.len(),
            plan::plan_of(*graph) == plan::with_types(
                start,
                semantic::document_definitions(docs.take(i as int)),
            ),
        decreases docs.len() - i,
    {
        let defs = &data.documents[i].definitions;
        let ghost earlier = semantic::document_definitions(docs.take(i as int));
        let mut j: usize = 0;
        assert(earlier + defs@.take(0) =~= earlier);
        while j < defs.len()
            invariant
                graph.wf(),
                graph.symbol_to_node == old(graph).symbol_to_node,
                graph.type_registry == old(graph).type_registry,
                graph.nodes().len() == old(graph).nodes().len(),
                j <= defs@.len(),
                plan::plan_of(*graph) == plan::with_types(
                    start,
                    earlier + defs@.take(j as int),
                ),
            decreases defs@.len() - j,
        {
            proof {
                let more = earlier + defs@.take(j + 1);
                assert(more.drop_last() =~= earlier + defs@.take(j as int));
                assert(more.last() == defs@[j as int]);
            }
            add_types(graph, &defs[j]);
            j += 1;
        }
        proof {
            assert(defs@.take(j as int) =~= defs@);
            assert(docs.take(i + 1).drop_last() =~= docs.take(i as int));
        }
        i += 1;
    }
    assert(docs.take(i as int) =~= docs);
}

/// The type that the result of a function gives to a variable.
fn result_type(graph: &ContextGraph, function: NodeIndex) -> (r: Option<String>)
    requires
        graph.has(function),
    ensures
        text::optional_text(r) == plan::returned_type(
            graph.at(function)@,
            plan::plan_of(*graph).types,
        ),
{
    match graph.node(function) {
        Node::Function(f) => {
            assert(text::texts(f.return_types@).len() == f.return_types@.len());
            if f.core.is_external && !f.return_types.is_empty() && graph.type_registry.contains(
                f.return_types[0].as_str(),
            ) {
                Some(f.return_types[0].clone())
            } else {
                None
            }
        },
        Node::Variable(_) => None,
    }
}

/// Gives a variable without a type the type of the result that it is assigned.
fn add_result_type(graph: &mut ContextGraph, variable: &String, function: &String)
    requires
        old(graph).wf(),
    ensures
        final(graph).wf(),
        final(graph).symbol_to_node == old(graph).symbol_to_node,
        final(graph).type_registry == old(graph).type_registry,
        final(graph).nodes().len() == old(graph).nodes().len(),
        plan::plan_of(*final(graph)) == plan::with_returned_type(
            plan::plan_of(*old(graph)),
            variable@,
            function@,
        ),
{
    let ghost start = *graph;
    let ghost before = plan::plan_of(*graph);
    let idx = match graph.get_node_by_symbol(variable.as_str()) {
        Some(idx) => idx,
        None => {
            return;
        },
    };
    let function_idx = match graph.get_node_by_symbol(function.as_str()) {
        Some(idx) => idx,
        None => {
            return;
        },
    };
    let type_id = match result_type(graph, function_idx) {
        Some(type_id) => type_id,
        None => {
            return;
        },
    };
    let ghost node_before = graph.at(idx);
    assert(before.node_at(idx) == node_before@);
    if let Some(node) = digraph::node_weight_mut(&mut graph.graph, idx) {
        match node {
            Node::Variable(v) => {
                if v.var_type.is_none() {
                    v.var_type = Some(type_id);
                }
            },
            Node::Function(_) => {},
        }
    }
    proof {
        let node = graph.at(idx);
        assert(graph.nodes() =~= start.nodes().update(idx.ix as int, node));
        lemma_plan_update(start, *graph, idx, node);
        assert(before.nodes.update(idx.ix as int, before.node_at(idx)) =~= before.nodes);
        assert(plan::plan_of(*graph) =~= plan::with_returned_type(before, variable@, function@));
    }
}

/// Gives variables the types of the results that they are assigned.
fn propagate_types(graph: &mut ContextGraph, called: &SymbolTable<SymbolId>)
    requires
        old(graph).wf(),
        called.wf(),
    ensures
        final(graph).wf(),
        final(graph).symbol_to_node == old(graph).symbol_to_node,
        final(graph).type_registry == old(graph).type_registry,
        final(graph).nodes().len() == old(graph).nodes().len(),
        plan::plan_of(*final(graph)) == plan::with_returned_types(
            plan::plan_of(*old(graph)),
            called.symbols(),
            semantic::table_texts(*called),
        ),
{
    let ghost start = plan::plan_of(*graph);
    let ghost symbols = called.symbols();
    let n: usize = called.len();
    let mut i: usize = 0;
    assert(symbols.take(0) =~= Seq::empty());
    while i < n
        invariant
            start == plan::plan_of(*old(graph)),
            symbols == called.symbols(),
            called.wf(),
            n == symbols.len(),
            graph.wf(),
            graph.symbol_to_node == old(graph).symbol_to_node,
            graph.type_registry == old(graph).type_registry,
            graph.nodes().len() == old(graph).nodes().len(),
            i <= n,
            plan::plan_of(*graph) == plan::with_returned_types(
                start,
                symbols.take(i as int),
                semantic::table_texts(*called),
            ),
        decreases n - i,
    {
        assert(symbols.take(i + 1).drop_last() =~= symbols.take(i as int));
        let function = called.value_at(i);
        assert(semantic::table_texts(*called)[symbols[i as int]] == function@);
        add_result_type(graph, called.key_at(i), function);
        i += 1;
    }
    assert(symbols.take(i as int) =~= symbols);
}

/// The methods of a type, in the order of the symbols of a list.
spec fn methods_in(the_plan: Plan, symbols: Seq<Seq<char>>, scope: Seq<char>) -> Seq<NodeIndex>
    decreases symbols.len(),
{
    if symbols.len() == 0 {
        Seq::empty()
    } else {
        let rest = methods_in(the_plan, symbols.drop_last(), scope);
        let idx = the_plan.index[symbols.last()];
        if plan::is_method_of(the_plan.node_at(idx), scope) {
            rest.push(idx)
        } else {
            rest
        }
    }
}

/// Those nodes of a list that have a name.
spec fn with_name(the_plan: Plan, list: Seq<NodeIndex>, name: Seq<char>) -> Seq<NodeIndex>
    decreases list.len(),
{
    if list.len() == 0 {
        Seq::empty()
    } else {
        let rest = with_name(the_plan, list.drop_last(), name);
        if the_plan.node_at(list.last()).node_core().name == name {
            rest.push(list.last())
        } else {
            rest
        }
    }
}

proof fn lemma_methods_named(
    the_plan: Plan,
    symbols: Seq<Seq<char>>,
    scope: Seq<char>,
    name: Seq<char>,
)
    ensures
        plan::methods_named(the_plan, symbols, scope, name) == with_name(
            the_plan,
            methods_in(the_plan, symbols, scope),
            name,
        ),
    decreases symbols.len(),
{
    if symbols.len() > 0 {
        let rest = symbols.drop_last();
        lemma_methods_named(the_plan, rest, scope, name);
        let list = methods_in(the_plan, rest, scope);
        let idx = the_plan.index[symbols.last()];
        assert(list.push(idx).drop_last() =~= list);
    }
}

/// A lookup from types to their methods.
struct MethodTable {
    by_scope: SymbolTable<Vec<NodeIndex>>,
}

impl MethodTable {
    /// Whether the table lists the methods of the symbols of a list.
    spec fn lists(&self, the_plan: Plan, symbols: Seq<Seq<char>>) -> bool {
        &&& self.by_scope.wf()
        &&& forall|scope: Seq<char>| #[trigger]
            methods_in(the_plan, symbols, scope) == if self.by_scope@.contains_key(scope) {
                self.by_scope@[scope]@
            } else {
                Seq::empty()
            }
        &&& forall|scope: Seq<char>, k: int|
            #![trigger self.by_scope@[scope]@[k]]
            self.by_scope@.contains_key(scope) && 0 <= k < self.by_scope@[scope]@.len()
                ==> self.by_scope@[scope]@[k].ix < the_plan.nodes.len()
    }

    /// The table of the methods of a graph.
    fn new(graph: &ContextGraph) -> (r: Self)
        requires
            graph.wf(),
        ensures
            r.lists(plan::plan_of(*graph), graph.symbol_to_node.symbols()),
    {
        let ghost the_plan = plan::plan_of(*graph);
        let ghost symbols = graph.symbol_to_node.symbols();
        let mut r = MethodTable { by_scope: SymbolTable::new() };
        let n: usize = graph.symbol_to_node.len();
        let mut i: usize = 0;
        proof {
            graph.symbol_to_node.lemma_symbols();
            assert(symbols.take(0) =~= Seq::empty());
        }
        while i < n
            invariant
                graph.wf(),
                the_plan == plan::plan_of(*graph),
                symbols == graph.symbol_to_node.symbols(),
                n == symbols.len(),
                i <= n,
                r.lists(the_plan, symbols.take(i as int)),
            decreases n - i,
        {
            let idx = *graph.symbol_to_node.value_at(i);
            let ghost done = symbols.take(i as int);
            let ghost more = symbols.take(i + 1);
            let ghost table = r.by_scope@;
            proof {
                assert(more.drop_last() =~= done);
                assert(more.last() == symbols[i as int]);
                assert(graph.has(idx));
                assert(the_plan.node_at(idx) == graph.at(idx)@);
            }
            let scope: Option<&String> = match graph.node(idx) {
                Node::Function(f) => match &f.core.scope {
                    Some(scope) => Some(scope),
                    None => None,
                },
                Node::Variable(_) => None,
            };
            if let Some(scope) = scope {
                match r.by_scope.get_mut(scope.as_str()) {
                    Some(list) => {
                        list.push(idx);
                    },
                    None => {
                        let mut list: Vec<NodeIndex> = Vec::new();
                        list.push(idx);
                        r.by_scope.insert(scope.clone(), list);
                    },
                }
                proof {
                    let before = methods_in(the_plan, done, scope@);
                    assert(r.by_scope@[scope@]@ =~= before.push(idx));
                    assert forall|other: Seq<char>| #[trigger]
                        methods_in(the_plan, more, other) == if r.by_scope@.contains_key(other) {
                            r.by_scope@[other]@
                        } else {
                            Seq::empty()
                        } by {
                        assert(methods_in(the_plan, done, other) == if table.contains_key(other) {
                            table[other]@
                        } else {
                            Seq::empty()
                        });
                    }
                    assert forall|other: Seq<char>, k: int|
                        #![trigger r.by_scope@[other]@[k]]
                        r.by_scope@.contains_key(other) && 0 <= k
                            < r.by_scope@[other]@.len() implies r.by_scope@[other]@[k].ix
                        < the_plan.nodes.len() by {
                        if other == scope@ {
                            if k < before.len() {
                                assert(before[k] == table[other]@[k]);
                            }
                        } else {
                            assert(table[other]@[k].ix < the_plan.nodes.len());
                        }
                    }
                }
            } else {
                proof {
                    assert forall|other: Seq<char>| #[trigger]
                        methods_in(the_plan, more, other) == if r.by_scope@.contains_key(other) {
                            r.by_scope@[other]@
                        } else {
                            Seq::empty()
                        } by {
                        assert(methods_in(the_plan, done, other) == if table.contains_key(other) {
                            table[other]@
                        } else {
                            Seq::empty()
                        });
                    }
                }
            }
            i += 1;
        }
        assert(symbols.take(i as int) =~= symbols);
        r
    }

    /// The methods of a type that have a name.
    fn find(
        &self,
        graph: &ContextGraph,
        scope: &str,
        name: &str,
        Ghost(the_plan): Ghost<Plan>,
    ) -> (r: Vec<NodeIndex>)
        requires
            graph.wf(),
            self.lists(the_plan, the_plan.symbols),
            plan::plan_of(*graph).nodes == the_plan.nodes,
        ensures
            r@ == plan::methods(the_plan, scope@, name@),
            forall|k: int| 0 <= k < r@.len() ==> graph.has(#[trigger] r@[k]),
    {
        proof {
            lemma_methods_named(the_plan, the_plan.symbols, scope@, name@);
        }
        let ghost listed = methods_in(the_plan, the_plan.symbols, scope@);
        let mut r: Vec<NodeIndex> = Vec::new();
        match self.by_scope.get(scope) {
            Some(list) => {
                let mut i: usize = 0;
                assert(list@.take(0) =~= Seq::empty());
                while i < list.len()
                    invariant
                        graph.wf(),
                        plan::plan_of(*graph).nodes == the_plan.nodes,
                        list@ == listed,
                        forall|k: int|
                            0 <= k < list@.len() ==> (#[trigger] list@[k]).ix
                                < the_plan.nodes.len(),
                        i <= list@.len(),
                        r@ == with_name(the_plan, list@.take(i as int), name@),
                        forall|k: int| 0 <= k < r@.len() ==> graph.has(#[trigger] r@[k]),
                    decreases list@.len() - i,
                {
                    let idx = list[i];
                    proof {
                        assert(list@.take(i + 1).drop_last() =~= list@.take(i as int));
                        assert(plan::plan_of(*graph).nodes.len() == graph.nodes().len());
                        assert(the_plan.node_at(idx) == graph.at(idx)@);
                    }
                    if same_text(graph.node(idx).node_core().name.as_str(), name) {
                        r.push(idx);
                    }
                    i += 1;
                }
                assert(list@.take(i as int) =~= list@);
            },
            None => {},
        }
        r
    }
}

/// Once edges cannot be added, nothing more is.
proof fn lemma_link_each_stuck(
    stage: Stage,
    source: NodeIndex,
    targets: Seq<NodeIndex>,
    kind: EdgeKind,
    k: int,
)
    requires
        0 <= k <= targets.len(),
        plan::link_each(stage, source, targets.take(k), kind) == Stage::Unsupported,
    ensures
        plan::link_each(stage, source, targets, kind) == Stage::Unsupported,
    decreases targets.len(),
{
    if k == targets.len() {
        assert(targets.take(k) =~= targets);
    } else {
        assert(targets.drop_last().take(k) =~= targets.take(k));
        lemma_link_each_stuck(stage, source, targets.drop_last(), kind, k);
    }
}

proof fn lemma_link_implementations_stuck(
    stage: Stage,
    the_plan: Plan,
    source: NodeIndex,
    name: Seq<char>,
    concrete: Seq<Seq<char>>,
    k: int,
)
    requires
        0 <= k <= concrete.len(),
        plan::link_implementations(stage, the_plan, source, name, concrete.take(k))
            == Stage::Unsupported,
    ensures
        plan::link_implementations(stage, the_plan, source, name, concrete) == Stage::Unsupported,
    decreases concrete.len(),
{
    if k == concrete.len() {
        assert(concrete.take(k) =~= concrete);
    } else {
        assert(concrete.drop_last().take(k) =~= concrete.take(k));
        lemma_link_implementations_stuck(stage, the_plan, source, name, concrete.drop_last(), k);
        let targets = plan::methods(the_plan, concrete.last(), name);
        assert(targets.take(0) =~= Seq::empty());
        lemma_link_each_stuck(Stage::Unsupported, source, targets, EdgeKind::OverriddenBy, 0);
    }
}

proof fn lemma_link_overrides_stuck(stage: Stage, the_plan: Plan, symbols: Seq<Seq<char>>, k: int)
    requires
        0 <= k <= symbols.len(),
        plan::link_overrides(stage, the_plan, symbols.take(k)) == Stage::Unsupported,
    ensures
        plan::link_overrides(stage, the_plan, symbols) == Stage::Unsupported,
    decreases symbols.len(),
{
    if k == symbols.len() {
        assert(symbols.take(k) =~= symbols);
    } else {
        assert(symbols.drop_last().take(k) =~= symbols.take(k));
        lemma_link_overrides_stuck(stage, the_plan, symbols.drop_last(), k);
        let idx = the_plan.index[symbols.last()];
        if let NodeView::Function(f) = the_plan.node_at(idx) {
            if let Some(scope) = f.core.scope {
                let concrete = the_plan.implementors[scope];
                assert(concrete.take(0) =~= Seq::empty());
                lemma_link_implementations_stuck(
                    Stage::Unsupported,
                    the_plan,
                    idx,
                    f.core.name,
                    concrete,
                    0,
                );
            }
        }
    }
}

/// Whether a graph differs from a plan in its edges only.
spec fn same_but_links(graph: ContextGraph, the_plan: Plan) -> bool {
    plan::plan_of(graph) == (Plan { links: graph.links(), ..the_plan })
}

/// Adds edges from a method to the methods of its name in a list of types.
fn link_implementations(
    graph: &mut ContextGraph,
    table: &MethodTable,
    source: NodeIndex,
    name: &String,
    concrete: &Vec<String>,
    Ghost(the_plan): Ghost<Plan>,
) -> (r: bool)
    requires
        old(graph).wf(),
        old(graph).has(source),
        same_but_links(*old(graph), the_plan),
        table.lists(the_plan, the_plan.symbols),
    ensures
        final(graph).wf(),
        r ==> same_but_links(*final(graph), the_plan),
        plan::link_implementations(
            Stage::Going(plan::plan_of(*old(graph))),
            the_plan,
            source,
            name@,
            text::texts(concrete@),
        ) == if r {
            Stage::Going(plan::plan_of(*final(graph)))
        } else {
            Stage::Unsupported
        },
{
    let ghost start = Stage::Going(plan::plan_of(*graph));
    let ghost types = text::texts(concrete@);
    let mut i: usize = 0;
    assert(types.take(0) =~= Seq::empty());
    while i < concrete.len()
        invariant
            start == Stage::Going(plan::plan_of(*old(graph))),
            types == text::texts(concrete@),
            graph.wf(),
            graph.has(source),
            same_but_links(*graph, the_plan),
            table.lists(the_plan, the_plan.symbols),
            i <= types.len(),
            Stage::Going(plan::plan_of(*graph)) == plan::link_implementations(
                start,
                the_plan,
                source,
                name@,
                types.take(i as int),
            ),
        decreases types.len() - i,
    {
        let targets = table.find(graph, concrete[i].as_str(), name.as_str(), Ghost(the_plan));
        let ghost middle = Stage::Going(plan::plan_of(*graph));
        let mut j: usize = 0;
        proof {
            assert(targets@.take(0) =~= Seq::empty());
            assert(types.take(i + 1).drop_last() =~= types.take(i as int));
            assert(types.take(i + 1).last() == concrete@[i as int]@);
        }
        while j < targets.len()
            invariant
                start == Stage::Going(plan::plan_of(*old(graph))),
                types == text::texts(concrete@),
                graph.wf(),
                graph.has(source),
                same_but_links(*graph, the_plan),
                i < types.len(),
                types.take(i + 1).drop_last() == types.take(i as int),
                types.take(i + 1).last() == concrete@[i as int]@,
                middle == plan::link_implementations(
                    start,
                    the_plan,
                    source,
                    name@,
                    types.take(i as int),
                ),
                targets@ == plan::methods(the_plan, concrete@[i as int]@, name@),
                forall|k: int| 0 <= k < targets@.len() ==> graph.has(#[trigger] targets@[k]),
                j <= targets@.len(),
                Stage::Going(plan::plan_of(*graph)) == plan::link_each(
                    middle,
                    source,
                    targets@.take(j as int),
                    EdgeKind::OverriddenBy,
                ),
            decreases targets@.len() - j,
        {
            let done = add_link(graph, source, targets[j], EdgeKind::OverriddenBy);
            proof {
                assert(targets@.take(j + 1).drop_last() =~= targets@.take(j as int));
                if !done {
                    lemma_link_each_stuck(
                        middle,
                        source,
                        targets@,
                        EdgeKind::OverriddenBy,
                        j + 1,
                    );
                    lemma_link_implementations_stuck(
                        start,
                        the_plan,
                        source,
                        name@,
                        types,
                        i + 1,
                    );
                }
            }
            if !done {
                return false;
            }
            j += 1;
        }
        assert(targets@.take(j as int) =~= targets@);
        i += 1;
    }
    assert(types.take(i as int) =~= types);
    true
}

/// Adds edges from the methods of interfaces to those that implement them.
fn link_overrides(graph: &mut ContextGraph, table: &MethodTable) -> (r: bool)
    requires
        old(graph).wf(),
        table.lists(plan::plan_of(*old(graph)), old(graph).symbol_to_node.symbols()),
    ensures
        final(graph).wf(),
        r ==> same_but_links(*final(graph), plan::plan_of(*old(graph))),
        plan::link_overrides(
            Stage::Going(plan::plan_of(*old(graph))),
            plan::plan_of(*old(graph)),
            old(graph).symbol_to_node.symbols(),
        ) == if r {
            Stage::Going(plan::plan_of(*final(graph)))
        } else {
            Stage::Unsupported
        },
{
    let ghost the_plan = plan::plan_of(*graph);
    let ghost start = Stage::Going(the_plan);
    let ghost symbols = graph.symbol_to_node.symbols();
    let n: usize = graph.symbol_to_node.len();
    let mut i: usize = 0;
    assert(symbols.take(0) =~= Seq::empty());
    while i < n
        invariant
            the_plan == plan::plan_of(*old(graph)),
            start == Stage::Going(the_plan),
            symbols == the_plan.symbols,
            symbols == old(graph).symbol_to_node.symbols(),
            n == symbols.len(),
            graph.wf(),
            same_but_links(*graph, the_plan),
            table.lists(the_plan, the_plan.symbols),
            i <= n,
            Stage::Going(plan::plan_of(*graph)) == plan::link_overrides(
                start,
                the_plan,
                symbols.take(i as int),
            ),
        decreases n - i,
    {
        let idx = *graph.symbol_to_node.value_at(i);
        proof {
            assert(symbols.take(i + 1).drop_last() =~= symbols.take(i as int));
            assert(symbols.take(i + 1).last() == symbols[i as int]);
            assert(idx == the_plan.index[symbols[i as int]]);
            assert(graph.has(idx));
            assert(the_plan.node_at(idx) == graph.at(idx)@);
        }
        let method: Option<(String, Vec<String>)> = match graph.node(idx) {
            Node::Function(f) => match &f.core.scope {
                Some(scope) => if f.is_interface_method {
                    match graph.type_registry.get_implementors(scope.as_str()) {
                        Some(list) => Some((f.core.name.clone(), copy_texts(list))),
                        None => None,
                    }
                } else {
                    None
                },
                None => None,
            },
            Node::Variable(_) => None,
        };
        if let Some((name, concrete)) = method {
            let done = link_implementations(
                graph,
                table,
                idx,
                &name,
                &concrete,
                Ghost(the_plan),
            );
            if !done {
                proof {
                    lemma_link_overrides_stuck(start, the_plan, symbols, i + 1);
                }
                return false;
            }
        }
        i += 1;
    }
    assert(symbols.take(i as int) =~= symbols);
    true
}

/// Where an open call leads.
enum Target {
    Node(NodeIndex),
    Unknown,
    Endless,
}

impl Target {
    spec fn recovery(&self) -> Recovery {
        match self {
            Target::Node(idx) => Recovery::Target(*idx),
            Target::Unknown => Recovery::Unknown,
            Target::Endless => Recovery::Endless,
        }
    }
}

/// Finds where an open call leads by the type of its receiver.
fn recover_target(
    graph: &ContextGraph,
    table: &MethodTable,
    reference: &SymbolReference,
    enclosing: &SymbolTable<SymbolId>,
    Ghost(the_plan): Ghost<Plan>,
) -> (r: Target)
    requires
        graph.wf(),
        same_but_links(*graph, the_plan),
        table.lists(the_plan, the_plan.symbols),
        enclosing.wf(),
    ensures
        r.recovery() == plan::recovered(
            the_plan,
            *reference,
            semantic::table_texts(*enclosing),
        ),
        match r {
            Target::Node(idx) => graph.has(idx),
            _ => true,
        },
{
    let receiver = match &reference.receiver {
        Some(receiver) => receiver,
        None => {
            return Target::Unknown;
        },
    };
    let method = match &reference.method_name {
        Some(method) => method,
        None => {
            return Target::Unknown;
        },
    };
    proof {
        lemma_resolved(
            receiver@,
            graph.symbol_to_node@,
            semantic::table_texts(*enclosing),
            semantic::table_texts(*enclosing).len(),
        );
    }
    let symbol = match resolve_to_node_symbol(receiver.as_str(), graph, enclosing) {
        Resolved::Endless => {
            return Target::Endless;
        },
        Resolved::Nothing => {
            return Target::Unknown;
        },
        Resolved::Found(symbol) => symbol,
    };
    let idx = match graph.get_node_by_symbol(symbol.as_str()) {
        Some(idx) => idx,
        None => {
            return Target::Unknown;
        },
    };
    assert(the_plan.node_at(idx) == graph.at(idx)@);
    match graph.node(idx) {
        Node::Variable(v) => match &v.var_type {
            Some(type_id) => {
                let candidates = table.find(
                    graph,
                    type_id.as_str(),
                    method.as_str(),
                    Ghost(the_plan),
                );
                if candidates.is_empty() {
                    Target::Unknown
                } else {
                    Target::Node(candidates[0])
                }
            },
            None => Target::Unknown,
        },
        Node::Function(_) => Target::Unknown,
    }
}

proof fn lemma_recover_stuck(
    stage: Stage,
    the_plan: Plan,
    calls: Seq<OpenCall>,
    enclosing: Map<Seq<char>, Seq<char>>,
    k: int,
)
    requires
        0 <= k <= calls.len(),
        plan::recover_calls(stage, the_plan, calls.take(k), enclosing).stage
            == Stage::Unsupported,
    ensures
        plan::recover_calls(stage, the_plan, calls, enclosing).stage == Stage::Unsupported,
    decreases calls.len(),
{
    if k == calls.len() {
        assert(calls.take(k) =~= calls);
    } else {
        assert(calls.drop_last().take(k) =~= calls.take(k));
        lemma_recover_stuck(stage, the_plan, calls.drop_last(), enclosing, k);
    }
}

/// Adds edges for the open calls that can be recovered. What a call leads to depends
/// on nodes and types alone, so that one round recovers all of them. Returns how many
/// stay open.
fn recover_calls(
    graph: &mut ContextGraph,
    table: &MethodTable,
    calls: &Vec<(&SymbolReference, NodeIndex)>,
    enclosing: &SymbolTable<SymbolId>,
    Ghost(the_plan): Ghost<Plan>,
) -> (r: Option<usize>)
    requires
        old(graph).wf(),
        same_but_links(*old(graph), the_plan),
        table.lists(the_plan, the_plan.symbols),
        enclosing.wf(),
        forall|i: int| 0 <= i < calls@.len() ==> old(graph).has((#[trigger] calls@[i]).1),
    ensures
        final(graph).wf(),
        ({
            let outcome = plan::recover_calls(
                Stage::Going(plan::plan_of(*old(graph))),
                the_plan,
                open_calls_of(calls@),
                semantic::table_texts(*enclosing),
            );
            match r {
                Some(left) => outcome.stage == Stage::Going(plan::plan_of(*final(graph)))
                    && outcome.left == left,
                None => outcome.stage == Stage::Unsupported,
            }
        }),
{
    let ghost start = Stage::Going(plan::plan_of(*graph));
    let ghost all = open_calls_of(calls@);
    let ghost outer = semantic::table_texts(*enclosing);
    let mut left: usize = 0;
    let mut i: usize = 0;
    assert(all.take(0) =~= Seq::empty());
    while i < calls.len()
        invariant
            start == Stage::Going(plan::plan_of(*old(graph))),
            all == open_calls_of(calls@),
            outer == semantic::table_texts(*enclosing),
            graph.wf(),
            same_but_links(*graph, the_plan),
            table.lists(the_plan, the_plan.symbols),
            enclosing.wf(),
            forall|k: int| 0 <= k < calls@.len() ==> graph.has((#[trigger] calls@[k]).1),
            i <= calls@.len(),
            left <= i,
            ({
                let so_far = plan::recover_calls(start, the_plan, all.take(i as int), outer);
                so_far.stage == Stage::Going(plan::plan_of(*graph)) && so_far.left == left
            }),
        decreases calls@.len() - i,
    {
        let (reference, source) = calls[i];
        proof {
            assert(all.take(i + 1).drop_last() =~= all.take(i as int));
            assert(all.take(i + 1).last() == (OpenCall { reference: *reference, source }));
        }
        match recover_target(graph, table, reference, enclosing, Ghost(the_plan)) {
            Target::Node(target) => {
                let done = add_link(graph, source, target, EdgeKind::Call);
                if !done {
                    proof {
                        lemma_recover_stuck(start, the_plan, all, outer, i + 1);
                    }
                    return None;
                }
            },
            Target::Unknown => {
                left = left + 1;
            },
            Target::Endless => {
                proof {
                    lemma_recover_stuck(start, the_plan, all, outer, i + 1);
                }
                return None;
            },
        }
        i += 1;
    }
    assert(all.take(i as int) =~= all);
    Some(left)
}

/// Counts references.
fn count_references(data: &SemanticData) -> (r: Option<usize>)
    ensures
        match r {
            Some(n) => n == plan::reference_count(data.documents@),
            None => plan::reference_count(data.documents@) > usize::MAX,
        },
{
    let ghost docs = data.documents@;
    let mut n: usize = 0;
    let mut i: usize = 0;
    assert(docs.take(0) =~= Seq::empty());
    while i < data.documents.len()
        invariant
            docs == data.documents@,
            i <= docs.len(),
            n == plan::reference_count(docs.take(i as int)),
        decreases docs.len() - i,
    {
        proof {
            assert(docs.take(i + 1).drop_last() =~= docs.take(i as int));
            lemma_reference_count(docs, i + 1);
        }
        match n.checked_add(data.documents[i].references.len()) {
            Some(sum) => {
                n = sum;
            },
            None => {
                return None;
            },
        }
        i += 1;
    }
    assert(docs.take(i as int) =~= docs);
    Some(n)
}

proof fn lemma_reference_count(documents: Seq<DocumentSemantics>, k: int)
    requires
        0 <= k <= documents.len(),
    ensures
        plan::reference_count(documents.take(k)) <= plan::reference_count(documents),
    decreases documents.len(),
{
    if k == documents.len() {
        assert(documents.take(k) =~= documents);
    } else {
        assert(documents.drop_last().take(k) =~= documents.take(k));
        lemma_reference_count(documents.drop_last(), k);
    }
}

/// Counts functions, and those whose spans are told apart.
fn count_functions(data: &SemanticData) -> (r: (usize, usize))
    ensures
        r.0 == crate::domain::node::count_where(
            semantic::document_definitions(data.documents@),
            |def: SymbolDefinition| plan::is_function_definition(def),
        ),
        r.1 == crate::domain::node::count_where(
            semantic::document_definitions(data.documents@),
            |def: SymbolDefinition| fragments::has_explicit_spans(def),
        ),
{
    let ghost is_function = |def: SymbolDefinition| plan::is_function_definition(def);
    let ghost is_explicit = |def: SymbolDefinition| fragments::has_explicit_spans(def);
    let ghost all = semantic::document_definitions(data.documents@);
    let defs = data.document_definitions();
    let mut functions: usize = 0;
    let mut explicit: usize = 0;
    let mut i: usize = 0;
    assert(all.take(0) =~= Seq::empty());
    while i < defs.len()
        invariant
            all == defs@.map_values(|def: &SymbolDefinition| *def),
            is_function == |def: SymbolDefinition| plan::is_function_definition(def),
            is_explicit == |def: SymbolDefinition| fragments::has_explicit_spans(def),
            i <= defs@.len(),
            functions <= i,
            explicit <= i,
            functions == crate::domain::node::count_where(all.take(i as int), is_function),
            explicit == crate::domain::node::count_where(all.take(i as int), is_explicit),
        decreases defs@.len() - i,
    {
        let def: &SymbolDefinition = defs[i];
        proof {
            assert(all.take(i + 1).drop_last() =~= all.take(i as int));
            assert(all.take(i + 1).last() == *def);
        }
        if def.kind == SymbolKind::Function {
            functions += 1;
        }
        if let SymbolDetails::Function(f) = &def.details {
            if !f.surface_spans.is_empty() {
                explicit += 1;
            }
        }
        i += 1;
    }
    assert(all.take(i as int) =~= all);
    (functions, explicit)
}

/// Whether a coverage has the numbers of a description.
pub open spec fn covers(coverage: GraphCoverage, view: plan::CoverageView) -> bool {
    &&& coverage.total_references == view.total_references
    &&& coverage.unresolved_calls == view.unresolved_calls
    &&& coverage.total_functions == view.total_functions
    &&& coverage.functions_with_explicit_fragments == view.functions_with_explicit_fragments
}

/// Why a graph was refused.
#[derive(Debug, Clone, PartialEq, Eq)]
pub enum BuildError {
    /// The symbol is given as a function or variable, but with the details of a type.
    TypeAsNode(SymbolId),
}

impl BuildError {
    /// What is wrong, in words.
    pub fn message(&self) -> (r: String)
        ensures
            r@ == match self {
                BuildError::TypeAsNode(symbol) => {
                    "Type symbol should not be converted to node: "@ + symbol@
                },
            },
    {
        match self {
            BuildError::TypeAsNode(symbol) => {
                let mut r = String::from_str("Type symbol should not be converted to node: ");
                r.append(symbol.as_str());
                r
            },
        }
    }
}

/// Adds edges and coverage to a graph of nodes and types.
fn connect(graph: ContextGraph, data: &SemanticData) -> (r: Option<ContextGraph>)
    requires
        graph.wf(),
    ensures
        match plan::connected(plan::plan_of(graph), *data) {
            Outcome::Described(description) => r is Some && r->0.wf() && plan::plan_of(r->0)
                == description.plan && covers(r->0.coverage, description.coverage),
            _ => r is None,
        },
{
    let enclosing = data.build_enclosing_map();
    let inits = find_initializers(&graph, data);
    let mut w = WiringState { graph, open_calls: Vec::new(), called: SymbolTable::new() };
    proof {
        assert(open_calls_of(w.open_calls@) =~= Seq::empty());
        assert(semantic::table_texts(w.called) =~= Map::empty());
    }
    if !wire(&mut w, data, &enclosing, &inits) {
        return None;
    }
    let ghost wired = w;
    let WiringState { graph, open_calls, called } = w;
    let mut graph = graph;
    fill_types(&mut graph, data);
    propagate_types(&mut graph, &called);
    let ghost typed = plan::plan_of(graph);
    let ghost node_total = graph.nodes().len();
    let table = MethodTable::new(&graph);
    if !link_overrides(&mut graph, &table) {
        proof {
            let calls = open_calls_of(open_calls@);
            assert(calls.take(0) =~= Seq::empty());
            lemma_recover_stuck(
                Stage::Unsupported,
                typed,
                calls,
                semantic::table_texts(enclosing),
                0,
            );
        }
        return None;
    }
    proof {
        assert(plan::plan_of(graph).nodes.len() == graph.nodes().len());
        assert(typed.nodes.len() == node_total);
        assert forall|i: int| 0 <= i < open_calls@.len() implies graph.has(
            (#[trigger] open_calls@[i]).1,
        ) by {
            assert(wired.graph.has(wired.open_calls@[i].1));
        }
    }
    let left: usize = match recover_calls(
        &mut graph,
        &table,
        &open_calls,
        &enclosing,
        Ghost(typed),
    ) {
        Some(left) => left,
        None => {
            return None;
        },
    };
    let total_references: usize = match count_references(data) {
        Some(n) => n,
        None => {
            return None;
        },
    };
    let (total_functions, explicit) = count_functions(data);
    graph.coverage =
    GraphCoverage {
        total_references,
        unresolved_calls: left,
        total_functions,
        functions_with_explicit_fragments: explicit,
    };
    Some(graph)
}

impl<S: SizeFunction, D: DocumentationScorer> GraphBuilder<S, D> {
    /// Which graph a model describes, given the sources of its documents.
    pub open spec fn described(&self, data: SemanticData, sources: Seq<Seq<char>>) -> Outcome {
        plan::described(*self.size_function, *self.doc_scorer, data, sources)
    }

    /// Whether a graph is the one that a model describes.
    pub open spec fn is_described(
        &self,
        graph: ContextGraph,
        data: SemanticData,
        sources: Seq<Seq<char>>,
    ) -> bool {
        &&& graph.wf()
        &&& self.described(data, sources) matches Outcome::Described(description)
            && plan::plan_of(graph) == description.plan && covers(
            graph.coverage,
            description.coverage,
        )
        &&& graph.measurement_scope_id@ == data.project_root@
        &&& exists|label: &'static str|
            call_ensures(S::id, (&*self.size_function,), label) && graph.size_function_id@
                == #[trigger] label@
    }

    /// Builds the graph that a model describes, given the sources of its documents.
    /// There is none where the model describes no graph that can be represented.
    pub fn try_build(&self, data: &SemanticData, sources: &Vec<String>) -> (r: Option<
        Result<ContextGraph, BuildError>,
    >)
        requires
            sources@.len() == data.documents@.len(),
        ensures
            match self.described(*data, text::texts(sources@)) {
                Outcome::Described(_) => r matches Some(Ok(graph)) && self.is_described(
                    graph,
                    *data,
                    text::texts(sources@),
                ),
                Outcome::Refused(symbol) => r matches Some(
                    Err(BuildError::TypeAsNode(refused)),
                ) && refused@ == symbol,
                Outcome::Unsupported => r is None,
            },
    {
        let mut graph = ContextGraph::new();
        assert(plan::plan_of(graph) =~= plan::empty_plan());
        match self.allocate(&mut graph, data, sources) {
            Err(Fault::Refused(symbol)) => {
                return Some(Err(BuildError::TypeAsNode(symbol)));
            },
            Err(Fault::Unsupported) => {
                return None;
            },
            Ok(_) => {},
        }
        match connect(graph, data) {
            Some(connected) => {
                let mut graph = connected;
                let label: &'static str = self.size_function.id();
                graph.size_function_id = label.to_owned();
                graph.measurement_scope_id = data.project_root.clone();
                assert(call_ensures(S::id, (&*self.size_function,), label)
                    && graph.size_function_id@ == label@);
                Some(Ok(graph))
            },
            None => None,
        }
    }

    /// Builds the graph that a model describes, given the sources of its documents.
    pub fn build(&self, data: SemanticData, sources: &Vec<String>) -> (r: Result<
        ContextGraph,
        BuildError,
    >)
        requires
            sources@.len() == data.documents@.len(),
            !(self.described(data, text::texts(sources@)) is Unsupported),
        ensures
            match self.described(data, text::texts(sources@)) {
                Outcome::Refused(symbol) => r matches Err(BuildError::TypeAsNode(refused))
                    && refused@ == symbol,
                _ => r matches Ok(graph) && self.is_described(
                    graph,
                    data,
                    text::texts(sources@),
                ),
            },
    {
        self.try_build(&data, sources).unwrap()
    }

    /// Whether a variable is mutable. One without a definition counts as mutable.
    pub fn is_variable_mutable(&self, symbol: &str, semantic_data: &SemanticData) -> (r: bool)
        ensures
            r == mutable_among(
                semantic::document_definitions(semantic_data.documents@),
                symbol@,
            ),
    {
        let all = semantic_data.document_definitions();
        let ghost list = semantic::document_definitions(semantic_data.documents@);
        let mut i: usize = all.len();
        let mut mutable: bool = true;
        assert(list.skip(i as int) =~= Seq::empty());
        while i > 0
            invariant
                list == all@.map_values(|def: &SymbolDefinition| *def),
                i <= all@.len(),
                mutable == mutable_among(list.skip(i as int), symbol@),
            decreases i,
        {
            i -= 1;
            let def: &SymbolDefinition = all[i];
            proof {
                assert(list[i as int] == *def);
                assert(list.skip(i as int).drop_first() =~= list.skip(i + 1));
            }
            if same_text(def.symbol_id.as_str(), symbol) {
                if let SymbolDetails::Variable(details) = &def.details {
                    mutable = details.mutability == Mutability::Mutable;
                }
            }
        }
        assert(list.skip(0) =~= list);
        mutable
    }

    /// Whether a symbol is that of a function whose signature is incomplete.
    pub fn is_function_underspecified(&self, symbol: &str, graph: &ContextGraph) -> (r: bool)
        requires
            graph.wf(),
        ensures
            r == (graph.symbol_to_node@.contains_key(symbol@) && match graph.at(
                graph.symbol_to_node@[symbol@],
            ) {
                Node::Function(f) => !f.signature_complete(),
                Node::Variable(_) => false,
            }),
    {
        match graph.get_node_by_symbol(symbol) {
            Some(idx) => match graph.node(idx) {
                Node::Function(f) => !f.is_signature_complete(),
                Node::Variable(_) => false,
            },
            None => false,
        }
    }
}

} // verus!
