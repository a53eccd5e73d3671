use context_footprint::domain::edge::EdgeKind;
use context_footprint::domain::graph::ContextGraph;
use context_footprint::domain::node::{
    ContextFragment, FunctionNode, Mutability, Node, NodeCore, Parameter, SourceSpan, VariableKind,
    VariableNode, Visibility,
};
use context_footprint::domain::policy::{evaluate, PruningDecision, PruningParams};
use context_footprint::domain::score::Score;
use context_footprint::domain::type_registry::{TypeDefAttribute, TypeInfo, TypeKind, TypeVarInfo};

/// The score that a number stands for.
fn score(value: f32) -> Score {
    Score::from_bits(value.to_bits())
}

fn test_node(doc_score: f32) -> Node {
    let core = NodeCore::new(
        0,
        "f".to_string(),
        None,
        10,
        SourceSpan {
            start_line: 0,
            start_column: 0,
            end_line: 1,
            end_column: 5,
        },
        score(doc_score),
        false,
        "test.py".to_string(),
    );
    Node::Function(FunctionNode {
        core,
        parameters: vec![Parameter {
            name: "x".to_string(),
            param_type: Some("int#".to_string()),
            is_high_freedom_type: false,
        }],
        is_async: false,
        is_generator: false,
        visibility: Visibility::Public,
        return_types: vec!["int#".to_string()],
        is_interface_method: false,
        is_constructor: false,
        is_di_wired: false,
    })
}

#[test]
fn test_default_pruning_params() {
    let p = PruningParams::default();
    assert!((f32::from_bits(p.doc_threshold.to_bits()) - 0.5).abs() < 1e-5);
    assert!(p.treat_typed_documented_function_as_boundary);
}

#[test]
fn test_academic_vs_strict() {
    let graph = ContextGraph::new();
    let target = test_node(0.8);
    let source = test_node(0.0);
    let edge = EdgeKind::Call;
    let academic = PruningParams::default();
    let strict = PruningParams {
        doc_threshold: score(0.5),
        treat_typed_documented_function_as_boundary: false,
    };
    assert!(matches!(
        evaluate(&academic, &source, &target, &edge, &graph),
        PruningDecision::Boundary
    ));
    assert!(matches!(
        evaluate(&strict, &source, &target, &edge, &graph),
        PruningDecision::Transparent
    ));
}

// Helper to create variable nodes for testing
fn test_variable_node(mutability: Mutability) -> Node {
    let core = NodeCore::new(
        1,
        "test_var".to_string(),
        None,
        5,
        SourceSpan {
            start_line: 0,
            start_column: 0,
            end_line: 1,
            end_column: 10,
        },
        score(0.5),
        false,
        "test.py".to_string(),
    );
    Node::Variable(VariableNode {
        core,
        var_type: Some("int#".to_string()),
        mutability,
        variable_kind: VariableKind::Global,
    })
}

#[test]
fn test_variable_immutable_is_boundary_on_read() {
    let graph = ContextGraph::new();
    let source = test_node(0.0);
    let target = test_variable_node(Mutability::Immutable);
    let edge = EdgeKind::Read;
    let params = PruningParams::default();

    // Immutable variable should be a boundary on Read
    assert!(matches!(
        evaluate(&params, &source, &target, &edge, &graph),
        PruningDecision::Boundary
    ));
}

#[test]
fn test_variable_const_is_boundary_on_read() {
    let graph = ContextGraph::new();
    let source = test_node(0.0);
    let target = test_variable_node(Mutability::Const);
    let edge = EdgeKind::Read;
    let params = PruningParams::default();

    // Const variable should be a boundary on Read
    assert!(matches!(
        evaluate(&params, &source, &target, &edge, &graph),
        PruningDecision::Boundary
    ));
}

#[test]
fn test_source_context_size_zero_is_boundary() {
    let graph = ContextGraph::new();
    let source_core = NodeCore::new(
        0,
        "stub".to_string(),
        None,
        0, // context_size 0 => do not expand
        SourceSpan {
            start_line: 0,
            start_column: 0,
            end_line: 0,
            end_column: 0,
        },
        score(0.0),
        false,
        "test.py".to_string(),
    );
    let source = Node::Function(FunctionNode {
        core: source_core,
        parameters: vec![],
        is_async: false,
        is_generator: false,
        visibility: Visibility::Public,
        return_types: vec![],
        is_interface_method: false,
        is_constructor: false,
        is_di_wired: false,
    });
    let target = test_node(0.0);
    let edge = EdgeKind::Read;
    let params = PruningParams::default();

    // Do not expand from stub nodes (context_size 0)
    assert!(matches!(
        evaluate(&params, &source, &target, &edge, &graph),
        PruningDecision::Boundary
    ));
}

#[test]
fn test_variable_mutable_is_transparent_on_read() {
    let graph = ContextGraph::new();
    let source = test_node(0.0);
    let target = test_variable_node(Mutability::Mutable);
    let edge = EdgeKind::Read;
    let params = PruningParams::default();

    // Mutable variable should be transparent on Read (triggers expansion)
    assert!(matches!(
        evaluate(&params, &source, &target, &edge, &graph),
        PruningDecision::Transparent
    ));
}

#[test]
fn test_variable_any_mutability_is_transparent_on_write() {
    let graph = ContextGraph::new();
    let source = test_node(0.0);
    let params = PruningParams::default();

    // All variable types should be transparent on Write
    for mutability in [
        Mutability::Const,
        Mutability::Immutable,
        Mutability::Mutable,
    ] {
        let target = test_variable_node(mutability);
        let edge = EdgeKind::Write;
        assert!(
            matches!(
                evaluate(&params, &source, &target, &edge, &graph),
                PruningDecision::Transparent
            ),
            "Variable with {:?} should be transparent on Write",
            mutability
        );
    }
}

fn make_func_with_typevar_param(param_type: &str, doc_score: f32) -> Node {
    let core = NodeCore::new(
        0,
        "f".to_string(),
        None,
        10,
        SourceSpan {
            start_line: 0,
            start_column: 0,
            end_line: 1,
            end_column: 5,
        },
        score(doc_score),
        false,
        "test.py".to_string(),
    );
    Node::Function(FunctionNode {
        core,
        parameters: vec![Parameter {
            name: "x".to_string(),
            param_type: Some(param_type.to_string()),
            is_high_freedom_type: false,
        }],
        is_async: false,
        is_generator: false,
        visibility: Visibility::Public,
        return_types: vec!["int#".to_string()],
        is_interface_method: false,
        is_constructor: false,
        is_di_wired: false,
    })
}

fn register_typevar(
    graph: &mut ContextGraph,
    type_id: &str,
    type_var_info: Option<TypeVarInfo>,
) {
    graph.type_registry.register(
        type_id.to_string(),
        TypeInfo {
            definition: TypeDefAttribute {
                type_kind: TypeKind::TypeVar,
                is_abstract: false,
                type_param_count: 0,
                type_var_info,
            },
            context_size: 0,
            surface_fragment: ContextFragment::new(
                format!("{type_id}:surface"),
                None,
                None,
                0,
            ),
            doc_score: score(0.0),
            documentation: Vec::new(),
        },
    );
}

#[test]
fn test_unbounded_typevar_makes_signature_incomplete() {
    let mut graph = ContextGraph::new();
    register_typevar(
        &mut graph,
        "T#",
        Some(TypeVarInfo {
            bound: None,
            constraints: Vec::new(),
        }),
    );

    let source = test_node(0.0);
    let target = make_func_with_typevar_param("T#", 0.8);
    let edge = EdgeKind::Call;
    let params = PruningParams::academic(score(0.5));

    assert!(matches!(
        evaluate(&params, &source, &target, &edge, &graph),
        PruningDecision::Transparent
    ));
}

#[test]
fn test_bounded_typevar_keeps_signature_complete() {
    let mut graph = ContextGraph::new();
    register_typevar(
        &mut graph,
        "T#",
        Some(TypeVarInfo {
            bound: Some("Protocol#".to_string()),
            constraints: Vec::new(),
        }),
    );

    let source = test_node(0.0);
    let target = make_func_with_typevar_param("T#", 0.8);
    let edge = EdgeKind::Call;
    let params = PruningParams::academic(score(0.5));

    assert!(matches!(
        evaluate(&params, &source, &target, &edge, &graph),
        PruningDecision::Boundary
    ));
}

#[test]
fn test_constrained_typevar_keeps_signature_complete() {
    let mut graph = ContextGraph::new();
    register_typevar(
        &mut graph,
        "T#",
        Some(TypeVarInfo {
            bound: None,
            constraints: vec!["int#".to_string(), "str#".to_string()],
        }),
    );

    let source = test_node(0.0);
    let target = make_func_with_typevar_param("T#", 0.8);
    let edge = EdgeKind::Call;
    let params = PruningParams::academic(score(0.5));

    assert!(matches!(
        evaluate(&params, &source, &target, &edge, &graph),
        PruningDecision::Boundary
    ));
}

#[test]
fn test_typevar_no_info_makes_signature_incomplete() {
    let mut graph = ContextGraph::new();
    register_typevar(&mut graph, "T#", None);

    let source = test_node(0.0);
    let target = make_func_with_typevar_param("T#", 0.8);
    let edge = EdgeKind::Call;
    let params = PruningParams::academic(score(0.5));

    assert!(matches!(
        evaluate(&params, &source, &target, &edge, &graph),
        PruningDecision::Transparent
    ));
}
