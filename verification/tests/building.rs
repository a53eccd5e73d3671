//! Graphs that models describe, on given models.

use context_footprint::domain::builder::{BuildError, GraphBuilder};
use context_footprint::domain::edge::EdgeKind;
use context_footprint::domain::graph::{ContextGraph, GraphCoverage, NodeIndex};
use context_footprint::domain::node::{Node, SourceSpan};
use context_footprint::domain::policy::{
    DocumentationScorer, NodeInfo, NodeType, PruningParams, SizeFunction,
};
use context_footprint::domain::score::Score;
use context_footprint::domain::semantic::{
    DocumentSemantics, FunctionDetails, FunctionModifiers, Mutability, ReferenceRole, SemanticData,
    SourceLocation, SourceSpan as SemanticSpan, SymbolDefinition, SymbolDetails, SymbolKind,
    SymbolReference, TypeDetails, TypeKind, VariableDetails, VariableScope, Visibility,
};
use context_footprint::domain::solver::CfSolver;
use std::cell::RefCell;
use std::sync::Arc;

struct Fixed(u32);

impl SizeFunction for Fixed {
    fn compute(&self, _source: &str, _span: &SourceSpan, _doc_texts: &[String]) -> u32 {
        self.0
    }
}

/// Counts the bytes of a source.
struct Bytes;

impl SizeFunction for Bytes {
    fn compute(&self, source: &str, _span: &SourceSpan, _doc_texts: &[String]) -> u32 {
        source.len() as u32
    }

    fn id(&self) -> &'static str {
        "bytes"
    }
}

struct Half;

impl DocumentationScorer for Half {
    fn score(&self, _node_info: &NodeInfo, _doc_text: Option<&str>) -> Score {
        Score::half()
    }
}

/// Remembers what it is told.
struct Listening {
    heard: RefCell<Vec<String>>,
}

impl DocumentationScorer for Listening {
    fn score(&self, node_info: &NodeInfo, doc_text: Option<&str>) -> Score {
        let kind = match node_info.node_type {
            NodeType::Function => "function",
            NodeType::Variable => "variable",
        };
        self.heard.borrow_mut().push(format!(
            "{} {} {:?} {:?} {:?}",
            kind, node_info.name, node_info.signature, node_info.language, doc_text
        ));
        Score::half()
    }
}

fn definition(symbol: &str, scope: Option<&str>, details: SymbolDetails) -> SymbolDefinition {
    let name = symbol.rsplit('.').next().unwrap_or(symbol).to_string();
    SymbolDefinition {
        symbol_id: symbol.to_string(),
        kind: match details {
            SymbolDetails::Function(_) => SymbolKind::Function,
            SymbolDetails::Variable(_) => SymbolKind::Variable,
            SymbolDetails::Type(_) => SymbolKind::Type,
        },
        name: name.clone(),
        display_name: name,
        location: SourceLocation {
            file_path: "lib.PYI".to_string(),
            line: 0,
            column: 0,
        },
        span: SemanticSpan {
            start_line: 0,
            start_column: 0,
            end_line: 0,
            end_column: 1,
        },
        enclosing_symbol: scope.map(|s| s.to_string()),
        is_external: false,
        documentation: vec![],
        details,
    }
}

fn function(symbol: &str, scope: Option<&str>) -> SymbolDefinition {
    definition(symbol, scope, SymbolDetails::Function(FunctionDetails::default()))
}

fn abstract_method(symbol: &str, scope: &str) -> SymbolDefinition {
    definition(
        symbol,
        Some(scope),
        SymbolDetails::Function(FunctionDetails {
            modifiers: FunctionModifiers {
                is_abstract: true,
                ..FunctionModifiers::default()
            },
            ..FunctionDetails::default()
        }),
    )
}

fn variable(symbol: &str, scope: Option<&str>, var_type: Option<&str>) -> SymbolDefinition {
    definition(
        symbol,
        scope,
        SymbolDetails::Variable(VariableDetails {
            var_type: var_type.map(|t| t.to_string()),
            mutability: Mutability::Mutable,
            scope: VariableScope::Global,
            visibility: Visibility::Public,
        }),
    )
}

fn class(symbol: &str, kind: TypeKind, implements: &[&str], inherits: &[&str]) -> SymbolDefinition {
    definition(
        symbol,
        None,
        SymbolDetails::Type(TypeDetails {
            kind,
            is_abstract: kind == TypeKind::Interface,
            is_final: false,
            visibility: Visibility::Public,
            type_params: vec![],
            fields: vec![],
            inherits: inherits.iter().map(|t| t.to_string()).collect(),
            implements: implements.iter().map(|t| t.to_string()).collect(),
        }),
    )
}

fn reference(from: &str, to: Option<&str>, role: ReferenceRole) -> SymbolReference {
    SymbolReference {
        target_symbol: to.map(|t| t.to_string()),
        location: SourceLocation {
            file_path: "m.py".to_string(),
            line: 0,
            column: 0,
        },
        enclosing_symbol: from.to_string(),
        role,
        receiver: None,
        method_name: None,
        assigned_to: None,
    }
}

fn method_call(from: &str, receiver: &str, method: &str) -> SymbolReference {
    SymbolReference {
        receiver: Some(receiver.to_string()),
        method_name: Some(method.to_string()),
        ..reference(from, None, ReferenceRole::Call)
    }
}

fn model(
    definitions: Vec<SymbolDefinition>,
    references: Vec<SymbolReference>,
    external_symbols: Vec<SymbolDefinition>,
) -> SemanticData {
    SemanticData {
        project_root: "/root".to_string(),
        documents: vec![DocumentSemantics {
            relative_path: "src/m.PY".to_string(),
            language: "python".to_string(),
            definitions,
            references,
        }],
        external_symbols,
    }
}

fn build(data: &SemanticData) -> Option<Result<ContextGraph, BuildError>> {
    let builder = GraphBuilder::new(Box::new(Fixed(3)), Box::new(Half));
    builder.try_build(data, &vec!["x: y\n".to_string()])
}

fn built(data: &SemanticData) -> ContextGraph {
    match build(data) {
        Some(Ok(graph)) => graph,
        _ => panic!("a graph"),
    }
}

fn edges(graph: &ContextGraph) -> Vec<(u32, u32, EdgeKind)> {
    (0..graph.node_count())
        .map(NodeIndex::new)
        .flat_map(|idx| {
            graph
                .outgoing_edges(idx)
                .into_iter()
                .map(move |(target, kind)| (idx.ix, target.ix, kind))
        })
        .collect()
}

#[test]
fn definitions_are_nodes_or_types() {
    let data = model(
        vec![
            class("m.C", TypeKind::Class, &[], &[]),
            function("m.C.f", Some("m.C")),
            variable("m.v", None, None),
        ],
        vec![],
        vec![
            class("ext.D", TypeKind::Class, &[], &[]),
            function("ext.g", None),
            function("m.C.f", None),
        ],
    );
    let graph = built(&data);
    assert_eq!(graph.node_count(), 3);
    assert_eq!(graph.symbol_names(), vec!["m.C.f", "m.v", "ext.g"]);
    assert_eq!(
        graph.type_registry.type_ids(),
        vec!["m.C".to_string(), "ext.D".to_string()]
    );
    for position in 0..3 {
        assert_eq!(graph.node(NodeIndex::new(position)).node_core().id, position as u32);
    }
    let method = graph.node(NodeIndex::new(0)).node_core();
    assert_eq!(method.scope, Some("m.C".to_string()));
    assert_eq!(method.file_path, "src/m.PY");
    assert!(!method.is_external);
    let library = graph.node(NodeIndex::new(2)).node_core();
    assert!(library.is_external);
    assert!(library.implementation_fragment.is_none());
    assert_eq!(library.file_path, "lib.PYI");
    assert_eq!(graph.measurement_scope_id, "/root");
    assert_eq!(graph.size_function_id, "custom");
}

#[test]
fn size_functions_give_their_name() {
    let builder = GraphBuilder::new(Box::new(Bytes), Box::new(Half));
    let graph = builder
        .build(
            model(vec![variable("m.v", None, None)], vec![], vec![]),
            &vec!["12345".to_string()],
        )
        .unwrap();
    assert_eq!(graph.size_function_id, "bytes");
    assert_eq!(graph.node(NodeIndex::new(0)).node_core().context_size, 5);
}

#[test]
fn scorers_are_told_signature_language_and_documentation() {
    let mut documented = function("m.f", None);
    documented.documentation = vec!["one".to_string(), "two".to_string()];
    let scorer = Listening {
        heard: RefCell::new(vec![]),
    };
    let builder = GraphBuilder::new(Box::new(Fixed(1)), Box::new(scorer));
    let data = model(
        vec![documented, variable("m.v", None, None)],
        vec![],
        vec![function("ext.g", None)],
    );
    builder.build(data, &vec!["".to_string()]).unwrap();
    // The language is the extension of the file in lower case.
    assert_eq!(
        *builder.doc_scorer.heard.borrow(),
        vec![
            "function f Some(\"() -> []\") Some(\"py\") Some(\"one\\n\\ntwo\")".to_string(),
            "variable v None Some(\"py\") None".to_string(),
            "function g Some(\"() -> []\") Some(\"pyi\") None".to_string(),
        ]
    );
}

#[test]
fn references_are_edges() {
    let data = model(
        vec![
            function("m.a", None),
            function("m.b", None),
            variable("m.v", None, None),
            variable("m.a.local", Some("m.a"), None),
        ],
        vec![
            reference("m.a", Some("m.b"), ReferenceRole::Call),
            reference("m.a", Some("m.v"), ReferenceRole::Read),
            reference("m.b", Some("m.v"), ReferenceRole::Write),
            reference("m.b", Some("m.a"), ReferenceRole::Decorate),
            // Stays within a node, or names nothing.
            reference("m.a", Some("m.a"), ReferenceRole::Call),
            reference("m.a", Some("m.none"), ReferenceRole::Read),
            reference("m.none", Some("m.a"), ReferenceRole::Call),
            // Cannot be resolved.
            reference("m.a", Some("m.none"), ReferenceRole::Call),
        ],
        vec![],
    );
    let graph = built(&data);
    let mut found = edges(&graph);
    found.sort_by_key(|(source, target, _)| (*source, *target));
    assert_eq!(
        found,
        vec![
            (0, 1, EdgeKind::Call),
            (0, 2, EdgeKind::Read),
            (1, 0, EdgeKind::Annotates),
            (1, 2, EdgeKind::Write),
        ]
    );
    assert_eq!(
        graph.coverage,
        GraphCoverage {
            total_references: 8,
            unresolved_calls: 1,
            total_functions: 2,
            functions_with_explicit_fragments: 0,
        }
    );
}

#[test]
fn references_belong_to_the_enclosing_node() {
    let data = model(
        vec![
            function("m.a", None),
            function("m.b", None),
            class("m.C", TypeKind::Class, &[], &[]),
            definition(
                "m.a.Inner",
                Some("m.a"),
                SymbolDetails::Type(TypeDetails {
                    kind: TypeKind::Class,
                    is_abstract: false,
                    is_final: false,
                    visibility: Visibility::Public,
                    type_params: vec![],
                    fields: vec![],
                    inherits: vec![],
                    implements: vec![],
                }),
            ),
        ],
        vec![
            // The inner class is no node; the function around it is.
            reference("m.a.Inner", Some("m.b"), ReferenceRole::Read),
            reference("m.b", Some("m.a.Inner"), ReferenceRole::Read),
            // Nothing is around this class.
            reference("m.C", Some("m.b"), ReferenceRole::Read),
        ],
        vec![],
    );
    assert_eq!(
        edges(&built(&data)),
        vec![(0, 1, EdgeKind::Read), (1, 0, EdgeKind::Read)]
    );
}

#[test]
fn symbols_that_enclose_each_other_describe_no_graph() {
    let mut first = class("m.A", TypeKind::Class, &[], &[]);
    first.enclosing_symbol = Some("m.B".to_string());
    let mut second = class("m.B", TypeKind::Class, &[], &[]);
    second.enclosing_symbol = Some("m.A".to_string());
    let ring = |references| model(vec![first.clone(), second.clone()], references, vec![]);
    assert!(matches!(build(&ring(vec![])), Some(Ok(_))));
    let inside = reference("m.A", Some("m.B"), ReferenceRole::Read);
    assert!(build(&ring(vec![inside])).is_none());
}

#[test]
fn types_cannot_become_nodes() {
    let mut odd = class("m.Odd", TypeKind::Class, &[], &[]);
    odd.kind = SymbolKind::Function;
    let refused = build(&model(vec![odd], vec![], vec![]));
    let error = refused.unwrap().err().unwrap();
    assert_eq!(error, BuildError::TypeAsNode("m.Odd".to_string()));
    assert_eq!(
        error.message(),
        "Type symbol should not be converted to node: m.Odd"
    );
}

#[test]
fn sizes_of_spans_that_do_not_fit_describe_no_graph() {
    let span = SemanticSpan {
        start_line: 0,
        start_column: 0,
        end_line: 0,
        end_column: 1,
    };
    let wide = definition(
        "m.f",
        None,
        SymbolDetails::Function(FunctionDetails {
            surface_spans: vec![span, span],
            ..FunctionDetails::default()
        }),
    );
    let data = model(vec![wide], vec![], vec![]);
    let sources = vec!["".to_string()];
    let large = GraphBuilder::new(Box::new(Fixed(u32::MAX)), Box::new(Half));
    assert!(large.try_build(&data, &sources).is_none());
    let small = GraphBuilder::new(Box::new(Fixed(4)), Box::new(Half));
    let graph = small.build(data, &sources).unwrap();
    assert_eq!(graph.coverage.functions_with_explicit_fragments, 1);
    assert_eq!(graph.node(NodeIndex::new(0)).node_core().context_size, 8);
}

#[test]
fn methods_of_interfaces_are_overridden() {
    let data = model(
        vec![
            class("m.I", TypeKind::Interface, &[], &[]),
            abstract_method("m.I.run", "m.I"),
            class("m.A", TypeKind::Class, &["m.I"], &[]),
            function("m.A.run", Some("m.A")),
            function("m.A.other", Some("m.A")),
            class("m.B", TypeKind::Class, &[], &["m.I"]),
            function("m.B.run", Some("m.B")),
            class("m.C", TypeKind::Class, &[], &[]),
            function("m.C.run", Some("m.C")),
        ],
        vec![],
        vec![],
    );
    let graph = built(&data);
    let mut found = edges(&graph);
    found.sort_by_key(|(source, target, _)| (*source, *target));
    assert_eq!(
        found,
        vec![
            (0, 1, EdgeKind::OverriddenBy),
            (0, 3, EdgeKind::OverriddenBy),
        ]
    );
    assert_eq!(
        graph.type_registry.get_implementors("m.I"),
        Some(&vec!["m.A".to_string(), "m.B".to_string()])
    );
    assert_eq!(graph.type_registry.get_implementors("m.A"), None);
}

#[test]
fn calls_on_typed_receivers_are_recovered() {
    let data = model(
        vec![
            class("m.A", TypeKind::Class, &[], &[]),
            function("m.A.run", Some("m.A")),
            function("m.use", None),
            variable("m.known", None, Some("m.A")),
            variable("m.unknown", None, None),
        ],
        vec![
            method_call("m.use", "m.known", "run"),
            method_call("m.use", "m.known", "missing"),
            method_call("m.use", "m.unknown", "run"),
            method_call("m.use", "m.nowhere", "run"),
        ],
        vec![],
    );
    let graph = built(&data);
    assert_eq!(edges(&graph), vec![(1, 0, EdgeKind::Call)]);
    assert_eq!(graph.coverage.unresolved_calls, 3);
    assert_eq!(graph.coverage.total_references, 4);
}

#[test]
fn results_of_external_functions_give_types() {
    let mut library = definition(
        "ext.make",
        None,
        SymbolDetails::Function(FunctionDetails {
            return_types: vec!["m.A".to_string()],
            ..FunctionDetails::default()
        }),
    );
    library.is_external = true;
    let data = model(
        vec![
            class("m.A", TypeKind::Class, &[], &[]),
            function("m.A.run", Some("m.A")),
            function("m.use", None),
            variable("m.v", None, None),
        ],
        vec![
            SymbolReference {
                assigned_to: Some("m.v".to_string()),
                ..reference("m.use", Some("ext.make"), ReferenceRole::Call)
            },
            method_call("m.use", "m.v", "run"),
        ],
        vec![library],
    );
    let graph = built(&data);
    let mut found = edges(&graph);
    found.sort_by_key(|(source, target, _)| (*source, *target));
    assert_eq!(found, vec![(1, 0, EdgeKind::Call), (1, 3, EdgeKind::Call)]);
    assert_eq!(graph.coverage.unresolved_calls, 0);
    match graph.node(NodeIndex::new(2)) {
        Node::Variable(v) => assert_eq!(v.var_type, Some("m.A".to_string())),
        Node::Function(_) => panic!("a variable"),
    }
}

#[test]
fn built_graphs_give_each_fragment_one_size() {
    let data = model(
        vec![
            class("m.I", TypeKind::Interface, &[], &[]),
            abstract_method("m.I.run", "m.I"),
            class("m.A", TypeKind::Class, &["m.I"], &[]),
            function("m.A.run", Some("m.A")),
            function("m.use", None),
            variable("m.v", None, Some("m.A")),
        ],
        vec![
            reference("m.use", Some("m.I.run"), ReferenceRole::Call),
            reference("m.use", Some("m.v"), ReferenceRole::Write),
            reference("m.A.run", Some("m.v"), ReferenceRole::Read),
        ],
        vec![function("ext.g", None)],
    );
    let graph = Arc::new(built(&data));
    let solver = CfSolver::new(Arc::clone(&graph), PruningParams::academic(Score::half()));
    for position in 0..graph.node_count() {
        let start = [NodeIndex::new(position)];
        let whole = solver.compute_cf(&start, None);
        assert_eq!(whole.cf_total, whole.cf_out + whole.cf_in - whole.cf_overlap);
        for limit in 0..40 {
            let part = solver.compute_cf(&start, Some(limit));
            assert_eq!(part.cf_total, part.cf_out + part.cf_in - part.cf_overlap);
            assert!(part.cf_total <= whole.cf_total);
        }
        let core = graph.node(start[0]).node_core();
        let symbol = graph.symbol_names()[position].to_string();
        assert_eq!(core.surface_fragment.id, format!("{symbol}:surface"));
        if let Some(fragment) = &core.implementation_fragment {
            assert_eq!(fragment.id, format!("{symbol}:implementation"));
        }
    }
}

#[test]
fn footprint_questions_about_symbols() {
    let constant = definition(
        "m.LIMIT",
        None,
        SymbolDetails::Variable(VariableDetails {
            var_type: None,
            mutability: Mutability::Const,
            scope: VariableScope::Global,
            visibility: Visibility::Public,
        }),
    );
    let data = model(
        vec![function("m.f", None), variable("m.v", None, None), constant],
        vec![],
        vec![],
    );
    let builder = GraphBuilder::new(Box::new(Fixed(3)), Box::new(Half));
    assert!(builder.is_variable_mutable("m.v", &data));
    assert!(builder.is_variable_mutable("m.none", &data));
    assert!(!builder.is_variable_mutable("m.LIMIT", &data));
    let graph = built(&data);
    assert!(builder.is_function_underspecified("m.f", &graph));
    assert!(!builder.is_function_underspecified("m.v", &graph));
}
