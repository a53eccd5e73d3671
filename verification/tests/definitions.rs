//! What definitions become, on given values.

use context_footprint::domain::fragments::{
    build_external_signature_only, build_external_source, check_spans, compute_text_size,
    convert_mutability, convert_span, create_context_fragments, create_external_surface,
    create_node_from_definition, create_type_info, extract_signature, extract_signature_span,
    infer_node_type_from_kind,
};
use context_footprint::domain::node::{
    is_param_effectively_typed, ContextFragment, Mutability as NodeMutability, Node, NodeCore,
    SourceSpan, VariableKind,
};
use context_footprint::domain::policy::{NodeType, SizeFunction};
use context_footprint::domain::score::Score;
use context_footprint::domain::semantic::{
    DocumentSemantics, FunctionDetails, FunctionModifiers, Mutability, Parameter, SemanticData,
    SourceLocation, SourceSpan as SemanticSpan, SymbolDefinition, SymbolDetails, SymbolKind,
    TypeDetails, TypeKind, TypeParam, VariableDetails, VariableScope, Visibility,
};
use context_footprint::domain::type_registry::{TypeKind as RegisteredKind, TypeRegistry};

/// Counts the lines of a span, and a hundred for each documentation that is left out.
struct Lines;

impl SizeFunction for Lines {
    fn compute(&self, _source: &str, span: &SourceSpan, doc_texts: &[String]) -> u32 {
        span.end_line - span.start_line + 1 + 100 * doc_texts.len() as u32
    }
}

/// Gives every span the same size.
struct Fixed(u32);

impl SizeFunction for Fixed {
    fn compute(&self, _source: &str, _span: &SourceSpan, _doc_texts: &[String]) -> u32 {
        self.0
    }

    fn id(&self) -> &'static str {
        "fixed"
    }
}

fn semantic_span(start_line: u32, end_line: u32) -> SemanticSpan {
    SemanticSpan {
        start_line,
        start_column: 2,
        end_line,
        end_column: 5,
    }
}

fn definition(symbol: &str, kind: SymbolKind, details: SymbolDetails) -> SymbolDefinition {
    SymbolDefinition {
        symbol_id: symbol.to_string(),
        kind,
        name: "name".to_string(),
        display_name: "name".to_string(),
        location: SourceLocation {
            file_path: "a.py".to_string(),
            line: 0,
            column: 0,
        },
        span: semantic_span(0, 3),
        enclosing_symbol: None,
        is_external: false,
        documentation: vec![],
        details,
    }
}

fn function(details: FunctionDetails) -> SymbolDefinition {
    definition("m.f", SymbolKind::Function, SymbolDetails::Function(details))
}

fn parameter(name: &str, param_type: Option<&str>) -> Parameter {
    Parameter {
        name: name.to_string(),
        param_type: param_type.map(|t| t.to_string()),
        is_high_freedom_type: false,
        has_default: false,
        is_variadic: false,
    }
}

fn type_details(kind: TypeKind, type_params: Vec<TypeParam>) -> TypeDetails {
    TypeDetails {
        kind,
        is_abstract: true,
        is_final: false,
        visibility: Visibility::Public,
        type_params,
        fields: vec![],
        inherits: vec![],
        implements: vec![],
    }
}

fn node_core() -> NodeCore {
    NodeCore::new(
        4,
        "name".to_string(),
        None,
        9,
        convert_span(&semantic_span(0, 3)),
        Score::half(),
        false,
        "a.py".to_string(),
    )
}

#[test]
fn signatures_list_parameters_and_results() {
    let def = function(FunctionDetails {
        parameters: vec![parameter("x", Some("int#")), parameter("y", None)],
        return_types: vec!["str#".to_string(), "a\"b".to_string()],
        ..FunctionDetails::default()
    });
    assert_eq!(
        extract_signature(&def),
        Some(format!("(x: int#, y) -> {:?}", vec!["str#", "a\"b"]))
    );
    assert_eq!(
        extract_signature(&function(FunctionDetails::default())),
        Some("() -> []".to_string())
    );
    let class = definition(
        "m.C",
        SymbolKind::Type,
        SymbolDetails::Type(type_details(TypeKind::Class, vec![])),
    );
    assert_eq!(extract_signature(&class), None);
}

#[test]
fn signatures_end_at_a_colon_or_semicolon() {
    let source = "def f(\n    x\n) -> int: é\n    return x;\n";
    let span = extract_signature_span(&semantic_span(0, 3), source);
    assert_eq!((span.start_line, span.start_column), (0, 2));
    assert_eq!((span.end_line, span.end_column), (2, 12));
    let last = extract_signature_span(&semantic_span(3, 3), source);
    assert_eq!((last.end_line, last.end_column), (3, 13));
    let none = extract_signature_span(&semantic_span(0, 3), "no mark\nhere\n");
    assert_eq!(none, convert_span(&semantic_span(0, 3)));
    let behind = extract_signature_span(&semantic_span(9, 9), source);
    assert_eq!(behind, convert_span(&semantic_span(9, 9)));
}

#[test]
fn texts_are_measured_by_their_lines() {
    assert_eq!(compute_text_size(&Lines, ""), 0);
    assert_eq!(compute_text_size(&Lines, "one"), 1);
    assert_eq!(compute_text_size(&Lines, "one\ntwo\nthree"), 3);
}

#[test]
fn functions_have_a_surface_and_an_implementation() {
    let mut def = function(FunctionDetails::default());
    def.documentation = vec!["one".to_string(), "two".to_string()];
    let source = "def f():\n    pass\n    pass\n    pass\n";
    let (surface, implementation) = create_context_fragments(&def, source, &Lines, false);
    assert_eq!(surface.id, "m.f:surface");
    assert_eq!(surface.normalized_text, Some("one\n\ntwo".to_string()));
    // One line of signature, three of documentation.
    assert_eq!(surface.context_size, 4);
    let implementation = implementation.unwrap();
    assert_eq!(implementation.id, "m.f:implementation");
    assert_eq!(implementation.span, Some(convert_span(&semantic_span(0, 3))));
    // Four lines, two documentations left out, less the signature.
    assert_eq!(implementation.context_size, 203);
    let (_, none) = create_context_fragments(&def, source, &Lines, true);
    assert!(none.is_none());
}

#[test]
fn other_definitions_have_a_surface_alone() {
    let def = definition(
        "m.v",
        SymbolKind::Variable,
        SymbolDetails::Variable(VariableDetails {
            var_type: None,
            mutability: Mutability::Const,
            scope: VariableScope::Field,
            visibility: Visibility::Public,
        }),
    );
    let (surface, implementation) = create_context_fragments(&def, "v = 1\n", &Lines, false);
    assert_eq!(surface.context_size, 4);
    assert_eq!(surface.span, Some(convert_span(&semantic_span(0, 3))));
    assert!(implementation.is_none());
}

#[test]
fn sums_of_spans_must_fit() {
    let spans = vec![semantic_span(0, 0), semantic_span(1, 1)];
    let def = function(FunctionDetails {
        surface_spans: spans,
        ..FunctionDetails::default()
    });
    assert!(check_spans(&def, "a\nb\n", &Fixed(7)));
    assert!(check_spans(&def, "a\nb\n", &Fixed(0x7fff_ffff)));
    assert!(!check_spans(&def, "a\nb\n", &Fixed(0x8000_0000)));
}

#[test]
fn external_symbols_are_a_name_and_a_signature() {
    let def = function(FunctionDetails::default());
    assert_eq!(build_external_signature_only(&None, &def), "name");
    assert_eq!(
        build_external_signature_only(&Some("() -> []".to_string()), &def),
        "name () -> []"
    );
    let exact = "é".repeat(100);
    assert_eq!(
        build_external_signature_only(&Some(exact.clone()), &def),
        format!("name {}", exact)
    );
    // The character at the limit is left out whole.
    let long = format!("a{}", exact);
    assert_eq!(
        build_external_signature_only(&Some(long), &def),
        format!("name a{}...", "é".repeat(99))
    );
}

#[test]
fn external_surfaces_are_small() {
    let mut def = function(FunctionDetails::default());
    let signature = Some("() -> []".to_string());
    let plain = create_external_surface(&def, &signature, &Fixed(49));
    assert_eq!(plain.context_size, 49);
    assert_eq!(plain.normalized_text, Some("name () -> []".to_string()));
    assert_eq!(plain.id, "m.f:surface");
    assert!(plain.span.is_none());
    assert_eq!(create_external_surface(&def, &signature, &Fixed(51)).context_size, 50);
    def.documentation = vec!["one".to_string(), "two".to_string()];
    let documented = create_external_surface(&def, &signature, &Lines);
    assert_eq!(
        documented.normalized_text,
        Some("name () -> []\none\n\ntwo".to_string())
    );
    assert_eq!(documented.context_size, 4);
}

#[test]
fn external_sources_show_five_lines() {
    assert_eq!(build_external_source(&None, &vec![]), "pass");
    assert_eq!(build_external_source(&Some("f()".to_string()), &vec![]), "f()");
    let docs = vec!["1\n2\n3\n4\n5\n6".to_string(), "other".to_string()];
    assert_eq!(
        build_external_source(&Some("f()".to_string()), &docs),
        "f()\n    1\n    2\n    3\n    4\n    5"
    );
}

#[test]
fn definitions_become_nodes() {
    let def = function(FunctionDetails {
        parameters: vec![parameter("x", Some("int#"))],
        return_types: vec!["str#".to_string()],
        modifiers: FunctionModifiers {
            is_async: true,
            is_constructor: true,
            ..FunctionModifiers::default()
        },
        ..FunctionDetails::default()
    });
    match create_node_from_definition(node_core(), &def, true) {
        Some(Node::Function(f)) => {
            assert_eq!(f.core.id, 4);
            assert!(f.is_async && f.is_constructor && f.is_interface_method);
            assert!(!f.is_generator && !f.is_di_wired);
            assert_eq!(f.param_count(), 1);
            assert_eq!(f.typed_param_count(), 1);
            assert_eq!(f.return_type_ids(), ["str#".to_string()]);
            assert!(f.is_signature_complete());
            let registry = TypeRegistry::new();
            assert!(f.is_signature_complete_with_registry(&registry));
            assert!(is_param_effectively_typed(&f.parameters[0], &registry));
        }
        _ => panic!("a function"),
    }
    let field = definition(
        "m.C.v",
        SymbolKind::Variable,
        SymbolDetails::Variable(VariableDetails {
            var_type: Some("int#".to_string()),
            mutability: Mutability::Immutable,
            scope: VariableScope::Field,
            visibility: Visibility::Private,
        }),
    );
    match create_node_from_definition(node_core(), &field, false) {
        Some(Node::Variable(v)) => {
            assert_eq!(v.var_type, Some("int#".to_string()));
            assert_eq!(v.mutability, NodeMutability::Immutable);
            assert_eq!(v.variable_kind, VariableKind::ClassField);
        }
        _ => panic!("a variable"),
    }
    let class = definition(
        "m.C",
        SymbolKind::Type,
        SymbolDetails::Type(type_details(TypeKind::Class, vec![])),
    );
    assert!(create_node_from_definition(node_core(), &class, false).is_none());
    assert_eq!(convert_mutability(&Mutability::Const), NodeMutability::Const);
    assert_eq!(infer_node_type_from_kind(&SymbolKind::Function), NodeType::Function);
    assert_eq!(infer_node_type_from_kind(&SymbolKind::Type), NodeType::Variable);
}

#[test]
fn type_variables_keep_their_bounds() {
    let surface = || ContextFragment::new("m.T:surface".to_string(), None, None, 3);
    let bounded = |bounds: &[&str]| {
        definition(
            "m.T",
            SymbolKind::Type,
            SymbolDetails::Type(type_details(
                TypeKind::TypeVar,
                vec![TypeParam {
                    name: "T".to_string(),
                    bounds: bounds.iter().map(|b| b.to_string()).collect(),
                }],
            )),
        )
    };
    let one = create_type_info(&bounded(&["A#"]), surface(), Score::half());
    assert_eq!(one.definition.type_kind, RegisteredKind::TypeVar);
    assert!(one.is_type_var());
    assert!(one.definition.is_abstract);
    assert_eq!(one.definition.type_param_count, 1);
    assert_eq!(one.context_size, 3);
    let limits = one.definition.type_var_info.unwrap();
    assert_eq!(limits.bound, Some("A#".to_string()));
    assert!(limits.constraints.is_empty());
    assert!(limits.is_effectively_typed());
    let two = create_type_info(&bounded(&["A#", "B#"]), surface(), Score::half());
    let limits = two.definition.type_var_info.unwrap();
    assert_eq!(limits.bound, Some("A#".to_string()));
    assert_eq!(limits.constraints, vec!["A#".to_string(), "B#".to_string()]);
    let open = create_type_info(&bounded(&[]), surface(), Score::half());
    assert!(!open.definition.type_var_info.unwrap().is_effectively_typed());
    let union = definition(
        "m.U",
        SymbolKind::Type,
        SymbolDetails::Type(type_details(TypeKind::Union, vec![])),
    );
    let info = create_type_info(&union, surface(), Score::half());
    assert_eq!(info.definition.type_kind, RegisteredKind::Class);
    assert!(info.definition.type_var_info.is_none());
}

#[test]
fn models_find_their_definitions() {
    let mut method = function(FunctionDetails {
        parameters: vec![parameter("x", Some("int#")), parameter("y", None)],
        return_types: vec!["str#".to_string()],
        ..FunctionDetails::default()
    });
    method.enclosing_symbol = Some("m.C".to_string());
    let field = definition(
        "m.C.v",
        SymbolKind::Variable,
        SymbolDetails::Variable(VariableDetails {
            scope: VariableScope::Field,
            ..VariableDetails::default()
        }),
    );
    let class = definition(
        "m.C",
        SymbolKind::Type,
        SymbolDetails::Type(TypeDetails::default()),
    );
    let library = definition(
        "ext.g",
        SymbolKind::Function,
        SymbolDetails::Function(FunctionDetails::default()),
    );
    let data = SemanticData {
        project_root: "/root".to_string(),
        documents: vec![
            DocumentSemantics {
                relative_path: "a.py".to_string(),
                language: "python".to_string(),
                definitions: vec![method, field],
                references: vec![],
            },
            DocumentSemantics {
                relative_path: "b.py".to_string(),
                language: "python".to_string(),
                definitions: vec![class],
                references: vec![],
            },
        ],
        external_symbols: vec![library],
    };
    let symbols: Vec<&str> = data
        .all_definitions()
        .iter()
        .map(|def| def.symbol_id.as_str())
        .collect();
    assert_eq!(symbols, vec!["m.f", "m.C.v", "m.C", "ext.g"]);
    assert_eq!(data.document_definitions().len(), 3);
    let enclosing = data.build_enclosing_map();
    assert_eq!(enclosing.len(), 1);
    assert_eq!(enclosing.get("m.f"), Some(&"m.C".to_string()));
    assert!(data.find_definition("m.none").is_none());
    let method = data.find_definition("m.f").unwrap();
    assert!(method.is_method() && !method.is_field());
    let details = method.as_function().unwrap();
    assert_eq!((details.param_count(), details.typed_param_count()), (2, 1));
    assert!(details.has_return_type() && !details.is_signature_complete());
    assert!(method.as_variable().is_none() && method.as_type().is_none());
    let field = data.find_definition("m.C.v").unwrap();
    assert!(field.is_field() && !field.is_method());
    assert_eq!(field.as_variable().unwrap().mutability, Mutability::Mutable);
    let class = data.find_definition("m.C").unwrap();
    assert_eq!(class.as_type().unwrap().kind, TypeKind::Class);
    assert!(!data.find_definition("ext.g").unwrap().is_method());
}

#[test]
fn cores_can_be_changed_in_place() {
    let def = function(FunctionDetails::default());
    let mut node = create_node_from_definition(node_core(), &def, false).unwrap();
    node.core_mut().name = "other".to_string();
    assert_eq!(node.node_core().name, "other");
    assert_eq!(node.node_core().id, 4);
}

#[test]
fn registered_types_are_listed_once() {
    let mut registry = TypeRegistry::new();
    let info = |size: u32| {
        create_type_info(
            &function(FunctionDetails::default()),
            ContextFragment::new("m.T:surface".to_string(), None, None, size),
            Score::half(),
        )
    };
    registry.register("m.T".to_string(), info(1));
    registry.register("m.S".to_string(), info(2));
    registry.register("m.T".to_string(), info(3));
    assert_eq!(registry.type_ids(), vec!["m.T".to_string(), "m.S".to_string()]);
    assert_eq!(registry.len(), 2);
    assert!(!registry.is_empty());
    assert_eq!(registry.get("m.T").unwrap().context_size, 3);
    if let Some(found) = registry.get_mut("m.S") {
        found.context_size = 9;
    }
    assert_eq!(registry.get("m.S").unwrap().context_size, 9);
    registry.register_implementor("m.I".to_string(), "m.T".to_string());
    registry.register_implementor("m.I".to_string(), "m.S".to_string());
    assert_eq!(
        registry.get_implementors("m.I"),
        Some(&vec!["m.T".to_string(), "m.S".to_string()])
    );
}
