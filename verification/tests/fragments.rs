use context_footprint::domain::fragments::{
    convert_visibility, create_context_fragments, create_type_info, extract_signature_span,
};
use context_footprint::domain::node::{
    ContextFragment, SourceSpan, Visibility as NodeVisibility,
};
use context_footprint::domain::policy::SizeFunction;
use context_footprint::domain::score::Score;
use context_footprint::domain::semantic::{
    FunctionDetails, SourceLocation, SourceSpan as SemanticSpan, SymbolDefinition, SymbolDetails,
    SymbolKind, Visibility,
};
use context_footprint::domain::type_registry::TypeKind;

/// The score that a number stands for.
fn score(value: f32) -> Score {
    Score::from_bits(value.to_bits())
}

fn test_function_def(symbol_id: &str) -> SymbolDefinition {
    SymbolDefinition {
        symbol_id: symbol_id.to_string(),
        kind: SymbolKind::Function,
        name: "test_func".to_string(),
        display_name: "test_func".to_string(),
        location: SourceLocation {
            file_path: "test.py".to_string(),
            line: 0,
            column: 0,
        },
        span: SemanticSpan {
            start_line: 0,
            start_column: 0,
            end_line: 10,
            end_column: 0,
        },
        enclosing_symbol: None,
        is_external: false,
        documentation: vec![],
        details: SymbolDetails::Function(FunctionDetails::default()),
    }
}

#[test]
fn test_convert_visibility() {
    assert!(matches!(
        convert_visibility(&Visibility::Public),
        NodeVisibility::Public
    ));
    assert!(matches!(
        convert_visibility(&Visibility::Private),
        NodeVisibility::Private
    ));
}

#[test]
fn test_create_type_info_from_class() {
    let def = test_function_def("TestClass");
    let info = create_type_info(
        &def,
        ContextFragment::new("TestClass:surface".to_string(), None, None, 100),
        score(0.8),
    );
    assert_eq!(info.definition.type_kind, TypeKind::Class);
    assert!(!info.definition.is_abstract);
}

#[test]
fn test_extract_signature_span_python() {
    let source = "    def method(self, x: int) -> str:\n        return str(x)\n        pass\n";
    let span = SemanticSpan {
        start_line: 0,
        start_column: 4,
        end_line: 2,
        end_column: 12,
    };

    let sig_span = extract_signature_span(&span, source);

    // Should stop at the first line with colon
    assert_eq!(sig_span.start_line, 0);
    assert_eq!(sig_span.end_line, 0);
}

struct SpanSize;

impl SizeFunction for SpanSize {
    fn compute(&self, _source: &str, span: &SourceSpan, _doc_texts: &[String]) -> u32 {
        span.end_line.saturating_sub(span.start_line) + 1
    }
}

#[test]
fn test_explicit_fragment_spans_drive_surface_and_implementation_costs() {
    let mut def = test_function_def("test_func");
    let SymbolDetails::Function(function) = &mut def.details else {
        panic!("function fixture");
    };
    function.surface_spans = vec![
        SemanticSpan {
            start_line: 0,
            start_column: 0,
            end_line: 0,
            end_column: 10,
        },
        SemanticSpan {
            start_line: 1,
            start_column: 0,
            end_line: 1,
            end_column: 10,
        },
    ];
    function.implementation_spans = vec![SemanticSpan {
        start_line: 2,
        start_column: 0,
        end_line: 3,
        end_column: 10,
    }];

    let (surface, implementation) = create_context_fragments(
        &def,
        "def f():\n    \"doc\"\n    return 1\n",
        &SpanSize,
        false,
    );

    assert_eq!(surface.context_size, 2);
    assert_eq!(implementation.unwrap().context_size, 2);
}
