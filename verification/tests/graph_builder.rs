use context_footprint::domain::builder::GraphBuilder;
use context_footprint::domain::edge::EdgeKind;
use context_footprint::domain::graph::{ContextGraph, NodeIndex};
use context_footprint::domain::node::SourceSpan;
use context_footprint::domain::policy::{DocumentationScorer, NodeInfo, SizeFunction};
use context_footprint::domain::score::Score;
use context_footprint::domain::semantic::{
    DocumentSemantics, FunctionDetails, FunctionModifiers, Mutability, Parameter, ReferenceRole,
    SemanticData, SourceLocation, SourceSpan as SemanticSpan, SymbolDefinition, SymbolDetails,
    SymbolKind, SymbolReference, TypeDetails, TypeKind, VariableDetails, VariableScope, Visibility,
};

const DUMMY_SOURCE: &str = "def foo(): pass\n";

/// The score that a number stands for.
fn score(value: f32) -> Score {
    Score::from_bits(value.to_bits())
}

/// Gives every span the same size.
struct MockSizeFunction {
    size: u32,
}

impl MockSizeFunction {
    fn new() -> Self {
        MockSizeFunction { size: 10 }
    }

    fn with_size(size: u32) -> Self {
        MockSizeFunction { size }
    }
}

impl SizeFunction for MockSizeFunction {
    fn compute(&self, _source: &str, _span: &SourceSpan, _doc_texts: &[String]) -> u32 {
        self.size
    }
}

/// Gives every unit the same score.
struct MockDocScorer {
    value: f32,
}

impl MockDocScorer {
    fn new() -> Self {
        MockDocScorer { value: 0.5 }
    }
}

impl DocumentationScorer for MockDocScorer {
    fn score(&self, _node_info: &NodeInfo, _doc_text: Option<&str>) -> Score {
        score(self.value)
    }
}

/// One copy of a source for each document.
fn sources_for(data: &SemanticData, source: &str) -> Vec<String> {
    vec![source.to_string(); data.documents.len()]
}

/// The number of edges of a kind.
fn edge_count(graph: &ContextGraph, wanted: EdgeKind) -> usize {
    (0..graph.node_count())
        .map(NodeIndex::new)
        .flat_map(|idx| graph.outgoing_edges(idx))
        .filter(|(_, kind)| *kind == wanted)
        .count()
}

fn definition(symbol: &str, name: &str, path: &str, details: SymbolDetails) -> SymbolDefinition {
    SymbolDefinition {
        symbol_id: symbol.to_string(),
        kind: match details {
            SymbolDetails::Function(_) => SymbolKind::Function,
            SymbolDetails::Variable(_) => SymbolKind::Variable,
            SymbolDetails::Type(_) => SymbolKind::Type,
        },
        name: name.to_string(),
        display_name: name.to_string(),
        location: SourceLocation {
            file_path: path.to_string(),
            line: 0,
            column: 0,
        },
        span: SemanticSpan {
            start_line: 0,
            start_column: 0,
            end_line: 0,
            end_column: 15,
        },
        enclosing_symbol: None,
        is_external: false,
        documentation: vec![],
        details,
    }
}

fn function(symbol: &str, name: &str, path: &str) -> SymbolDefinition {
    definition(
        symbol,
        name,
        path,
        SymbolDetails::Function(FunctionDetails::default()),
    )
}

fn reference(from: &str, to: &str, role: ReferenceRole, path: &str) -> SymbolReference {
    SymbolReference {
        target_symbol: Some(to.to_string()),
        location: SourceLocation {
            file_path: path.to_string(),
            line: 0,
            column: 0,
        },
        enclosing_symbol: from.to_string(),
        role,
        receiver: None,
        method_name: None,
        assigned_to: None,
    }
}

fn document(
    path: &str,
    definitions: Vec<SymbolDefinition>,
    references: Vec<SymbolReference>,
) -> DocumentSemantics {
    DocumentSemantics {
        relative_path: path.to_string(),
        language: "python".to_string(),
        definitions,
        references,
    }
}

fn model(documents: Vec<DocumentSemantics>) -> SemanticData {
    SemanticData {
        project_root: "/test".to_string(),
        documents,
        external_symbols: vec![],
    }
}

/// `func_a` calls `func_b` in one file.
fn create_semantic_data_simple() -> SemanticData {
    model(vec![document(
        "main.py",
        vec![
            function("sym::func_a", "func_a", "main.py"),
            function("sym::func_b", "func_b", "main.py"),
        ],
        vec![reference(
            "sym::func_a",
            "sym::func_b",
            ReferenceRole::Call,
            "main.py",
        )],
    )])
}

/// A function of one file calls a function of another.
fn create_semantic_data_two_files() -> SemanticData {
    model(vec![
        document(
            "a.py",
            vec![function("sym::a", "a", "a.py")],
            vec![reference("sym::a", "sym::b", ReferenceRole::Call, "a.py")],
        ),
        document("b.py", vec![function("sym::b", "b", "b.py")], vec![]),
    ])
}

/// Three functions that call each other in a ring.
fn create_semantic_data_with_cycle() -> SemanticData {
    model(vec![document(
        "main.py",
        vec![
            function("sym::a", "a", "main.py"),
            function("sym::b", "b", "main.py"),
            function("sym::c", "c", "main.py"),
        ],
        vec![
            reference("sym::a", "sym::b", ReferenceRole::Call, "main.py"),
            reference("sym::b", "sym::c", ReferenceRole::Call, "main.py"),
            reference("sym::c", "sym::a", ReferenceRole::Call, "main.py"),
        ],
    )])
}

/// A reader and two writers of a mutable variable.
fn create_semantic_data_with_shared_state() -> SemanticData {
    model(vec![document(
        "main.py",
        vec![
            function("sym::reader", "reader", "main.py"),
            definition(
                "sym::state",
                "state",
                "main.py",
                SymbolDetails::Variable(VariableDetails {
                    var_type: None,
                    mutability: Mutability::Mutable,
                    scope: VariableScope::Global,
                    visibility: Visibility::Public,
                }),
            ),
            function("sym::w1", "w1", "main.py"),
            function("sym::w2", "w2", "main.py"),
        ],
        vec![
            reference("sym::reader", "sym::state", ReferenceRole::Read, "main.py"),
            reference("sym::w1", "sym::state", ReferenceRole::Write, "main.py"),
            reference("sym::w2", "sym::state", ReferenceRole::Write, "main.py"),
        ],
    )])
}

/// A document without definitions or references.
fn create_semantic_data_empty_document() -> SemanticData {
    model(vec![document("empty.py", vec![], vec![])])
}

/// Two functions that call a third one.
fn create_semantic_data_multiple_callers() -> SemanticData {
    model(vec![document(
        "main.py",
        vec![
            function("sym::a", "a", "main.py"),
            function("sym::b", "b", "main.py"),
            function("sym::c", "c", "main.py"),
        ],
        vec![
            reference("sym::a", "sym::c", ReferenceRole::Call, "main.py"),
            reference("sym::b", "sym::c", ReferenceRole::Call, "main.py"),
        ],
    )])
}

/// A function that calls a class by its name.
fn create_semantic_data_with_constructor_call() -> SemanticData {
    let class = definition(
        "sym::MyClass",
        "MyClass",
        "main.py",
        SymbolDetails::Type(TypeDetails {
            kind: TypeKind::Class,
            is_abstract: false,
            is_final: false,
            visibility: Visibility::Public,
            type_params: vec![],
            fields: vec![],
            inherits: vec![],
            implements: vec![],
        }),
    );
    let mut init = definition(
        "sym::MyClass.__init__",
        "__init__",
        "main.py",
        SymbolDetails::Function(FunctionDetails {
            modifiers: FunctionModifiers {
                is_constructor: true,
                ..FunctionModifiers::default()
            },
            ..FunctionDetails::default()
        }),
    );
    init.enclosing_symbol = Some("sym::MyClass".to_string());
    model(vec![document(
        "main.py",
        vec![function("sym::caller", "caller", "main.py"), class, init],
        vec![reference(
            "sym::caller",
            "sym::MyClass",
            ReferenceRole::Call,
            "main.py",
        )],
    )])
}

/// A factory of which only the signature counts, on a span of 26 lines.
fn create_semantic_data_annotated_style_factory() -> SemanticData {
    let mut factory = definition(
        "mod::Body",
        "Body",
        "main.py",
        SymbolDetails::Function(FunctionDetails {
            parameters: vec![Parameter {
                name: "default".to_string(),
                param_type: Some("Any#".to_string()),
                is_high_freedom_type: true,
                has_default: true,
                is_variadic: false,
            }],
            return_types: vec!["Any#".to_string()],
            modifiers: FunctionModifiers {
                use_signature_only_for_size: true,
                ..FunctionModifiers::default()
            },
            ..FunctionDetails::default()
        }),
    );
    factory.span = SemanticSpan {
        start_line: 0,
        start_column: 0,
        end_line: 25,
        end_column: 0,
    };
    factory.documentation = vec!["Declare a request body.".to_string()];
    model(vec![document("main.py", vec![factory], vec![])])
}

#[test]
fn test_build_graph_from_semantic_data_simple() {
    let semantic_data = create_semantic_data_simple();
    let sources = sources_for(&semantic_data, DUMMY_SOURCE);

    let size_fn = Box::new(MockSizeFunction::new());
    let doc_scorer = Box::new(MockDocScorer::new());
    let builder = GraphBuilder::new(size_fn, doc_scorer);
    let graph = builder.build(semantic_data, &sources).unwrap();

    assert_eq!(graph.node_count(), 2);
    assert!(graph.edge_count() >= 1);
    assert!(graph.get_node_by_symbol("sym::func_a").is_some());
    assert!(graph.get_node_by_symbol("sym::func_b").is_some());
}

#[test]
fn test_build_graph_two_files() {
    let semantic_data = create_semantic_data_two_files();
    let sources = sources_for(&semantic_data, DUMMY_SOURCE);

    let size_fn = Box::new(MockSizeFunction::new());
    let doc_scorer = Box::new(MockDocScorer::new());
    let builder = GraphBuilder::new(size_fn, doc_scorer);
    let graph = builder.build(semantic_data, &sources).unwrap();

    assert_eq!(graph.node_count(), 2);
    assert!(graph.edge_count() >= 1);
}

#[test]
fn test_three_pass_creates_nodes_then_edges() {
    let semantic_data = create_semantic_data_simple();
    let sources = sources_for(&semantic_data, DUMMY_SOURCE);

    let size_fn = Box::new(MockSizeFunction::with_size(5));
    let doc_scorer = Box::new(MockDocScorer::new());
    let builder = GraphBuilder::new(size_fn, doc_scorer);
    let graph = builder.build(semantic_data, &sources).unwrap();

    assert_eq!(graph.node_count(), 2, "Pass 1: two nodes");
    assert!(graph.edge_count() >= 1, "Pass 2/3: at least one edge");
    for position in 0..graph.node_count() {
        let core = graph.node(NodeIndex::new(position)).node_core();
        let fragment_total = core.surface_fragment.context_size.saturating_add(
            core.implementation_fragment
                .as_ref()
                .map_or(0, |fragment| fragment.context_size),
        );
        assert!(core.context_size >= 5, "SizeFunction applied");
        assert_eq!(core.context_size, fragment_total);
    }
}

#[test]
fn test_cycle_fixture_produces_cycle_edges() {
    let semantic_data = create_semantic_data_with_cycle();
    let sources = sources_for(&semantic_data, DUMMY_SOURCE);

    let size_fn = Box::new(MockSizeFunction::new());
    let doc_scorer = Box::new(MockDocScorer::new());
    let builder = GraphBuilder::new(size_fn, doc_scorer);
    let graph = builder.build(semantic_data, &sources).unwrap();

    assert_eq!(graph.node_count(), 3);
    assert!(graph.edge_count() >= 3);
}

#[test]
fn test_shared_state_fixture_produces_read_and_write_edges() {
    // Builder produces Read (reader->var) and Write (w1->var, w2->var). Reverse exploration at query time follows incoming Write from var.
    let semantic_data = create_semantic_data_with_shared_state();
    let sources = sources_for(&semantic_data, DUMMY_SOURCE);

    let size_fn = Box::new(MockSizeFunction::new());
    let doc_scorer = Box::new(MockDocScorer::new());
    let builder = GraphBuilder::new(size_fn, doc_scorer);
    let graph = builder.build(semantic_data, &sources).unwrap();

    assert_eq!(graph.node_count(), 4);
    let read_count = edge_count(&graph, EdgeKind::Read);
    let write_count = edge_count(&graph, EdgeKind::Write);
    assert!(read_count >= 1, "Reader should have Read edge to variable");
    assert_eq!(
        write_count, 2,
        "W1 and W2 should have Write edges to variable"
    );
}

#[test]
fn test_empty_document_produces_no_nodes() {
    let semantic_data = create_semantic_data_empty_document();
    let sources = sources_for(&semantic_data, "");

    let size_fn = Box::new(MockSizeFunction::new());
    let doc_scorer = Box::new(MockDocScorer::new());
    let builder = GraphBuilder::new(size_fn, doc_scorer);
    let graph = builder.build(semantic_data, &sources).unwrap();

    assert_eq!(graph.node_count(), 0);
    assert_eq!(graph.edge_count(), 0);
}

#[test]
fn test_multiple_writers_all_connected_via_write_edges() {
    // Builder produces Write edges from W1 and W2 to the shared variable. CF query follows incoming Write from var at traversal time.
    let semantic_data = create_semantic_data_with_shared_state();
    let sources = sources_for(&semantic_data, DUMMY_SOURCE);

    let size_fn = Box::new(MockSizeFunction::new());
    let doc_scorer = Box::new(MockDocScorer::new());
    let builder = GraphBuilder::new(size_fn, doc_scorer);
    let graph = builder.build(semantic_data, &sources).unwrap();

    let write_count = edge_count(&graph, EdgeKind::Write);
    assert_eq!(
        write_count, 2,
        "W1 and W2 should have Write edges to the shared variable"
    );
}

#[test]
fn test_multiple_callers_connected_via_call_edges() {
    // Builder produces Call edges A->C and B->C. CF query follows incoming Call from C at traversal time (call-in exploration).
    let semantic_data = create_semantic_data_multiple_callers();
    let sources = sources_for(&semantic_data, DUMMY_SOURCE);

    let size_fn = Box::new(MockSizeFunction::new());
    let doc_scorer = Box::new(MockDocScorer::new());
    let builder = GraphBuilder::new(size_fn, doc_scorer);
    let graph = builder.build(semantic_data, &sources).unwrap();

    assert_eq!(graph.node_count(), 3);
    let call_edges_to_callee = edge_count(&graph, EdgeKind::Call);
    assert!(
        call_edges_to_callee >= 2,
        "Callers A and B should have Call edges to callee C"
    );
}

#[test]
fn test_constructor_call_to_type_resolves_to_init() {
    let semantic_data = create_semantic_data_with_constructor_call();
    let sources = sources_for(&semantic_data, DUMMY_SOURCE);

    let size_fn = Box::new(MockSizeFunction::new());
    let doc_scorer = Box::new(MockDocScorer::new());
    let builder = GraphBuilder::new(size_fn, doc_scorer);
    let graph = builder.build(semantic_data, &sources).unwrap();

    let caller_idx = graph.get_node_by_symbol("sym::caller").unwrap();
    let init_idx = graph.get_node_by_symbol("sym::MyClass.__init__").unwrap();

    let has_call_edge = graph
        .outgoing_edges(caller_idx)
        .iter()
        .any(|(target, kind)| *target == init_idx && matches!(kind, EdgeKind::Call));
    assert!(
        has_call_edge,
        "Constructor call to Type should resolve to __init__ Call edge"
    );
}

/// Size function that returns 10 * (number of lines in span). Used to verify
/// that use_signature_only_for_size causes only the signature span to be counted.
struct LineCountSizeFunction;

impl SizeFunction for LineCountSizeFunction {
    fn compute(&self, _source: &str, span: &SourceSpan, _doc_texts: &[String]) -> u32 {
        let lines = span.end_line.saturating_sub(span.start_line) + 1;
        lines * 10
    }
}

#[test]
fn test_use_signature_only_for_size_limits_context_size_to_signature() {
    let semantic_data = create_semantic_data_annotated_style_factory();
    // Source: line 0 = signature (with colon), lines 1..25 = body. 26 lines total.
    let signature_line = "def Body(default: Any = ...) -> Any:\n";
    let body_lines: String = (0..25)
        .map(|_| "    # comment line to grow body\n")
        .collect();
    let source = format!("{signature_line}{body_lines}");

    let sources = sources_for(&semantic_data, &source);
    let size_fn = Box::new(LineCountSizeFunction);
    let doc_scorer = Box::new(MockDocScorer::new());
    let builder = GraphBuilder::new(size_fn, doc_scorer);
    let graph = builder.build(semantic_data, &sources).unwrap();

    let body_idx = graph.get_node_by_symbol("mod::Body").expect("Body symbol");
    let context_size = graph.node(body_idx).node_core().context_size;
    // Surface contains one signature line and one documentation fragment: 20 tokens.
    // If we had counted the full span (26 lines), it would be 260.
    assert_eq!(
        context_size, 20,
        "annotated-style factory should charge signature + docs, not the full body"
    );
}
