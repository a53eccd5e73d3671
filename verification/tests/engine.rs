use context_footprint::app::context::select_lines;
use context_footprint::app::dto::{
    ComputeRequest, ContextRequest, PolicyKind, ReachabilityRequest,
};
use context_footprint::app::engine::{expand_class_anchor, ContextEngine};
use context_footprint::domain::edge::EdgeKind;
use context_footprint::domain::graph::ContextGraph;
use context_footprint::domain::node::{
    ContextFragment, FunctionNode, Mutability, Node, NodeCore, SourceSpan, VariableKind,
    VariableNode, Visibility,
};
use context_footprint::domain::score::Score;
use context_footprint::domain::type_registry::{TypeDefAttribute, TypeInfo, TypeKind};

/// The score that a number stands for.
fn score(value: f32) -> Score {
    Score::from_bits(value.to_bits())
}

/// The lines of a file of four lines, both ends of the range included.
fn read_lines(start_line: usize, end_line: usize) -> Vec<String> {
    let lines = vec![
        "line1".to_string(),
        "line2".to_string(),
        "line3".to_string(),
        "line4".to_string(),
    ];
    select_lines(&lines, start_line, end_line)
}

/// Marks no symbol of an engine as a test.
fn no_tests(engine: &ContextEngine) -> Vec<bool> {
    vec![false; engine.symbol_subjects().len()]
}

fn make_core(id: u32, name: &str, file_path: &str, start_line: u32, end_line: u32) -> NodeCore {
    NodeCore::new(
        id,
        name.to_string(),
        None,
        10,
        SourceSpan {
            start_line,
            start_column: 0,
            end_line,
            end_column: 0,
        },
        score(1.0),
        false,
        file_path.to_string(),
    )
}

fn test_graph() -> ContextGraph {
    let mut g = ContextGraph::new();

    let f1 = Node::Function(FunctionNode {
        core: make_core(0, "func1", "app/main.py", 0, 1),
        parameters: Vec::new(),
        is_async: false,
        is_generator: false,
        visibility: Visibility::Public,
        return_types: vec![],
        is_interface_method: false,
        is_constructor: false,
        is_di_wired: false,
    });

    let v1 = Node::Variable(VariableNode {
        core: make_core(1, "var1", "app/main.py", 0, 1),
        var_type: None,
        mutability: Mutability::Mutable,
        variable_kind: VariableKind::Global,
    });

    let i_f1 = g.add_node("sym/func1().".into(), f1);
    let i_v1 = g.add_node("sym/var1.".into(), v1);
    g.add_edge(i_f1, i_v1, EdgeKind::Read);

    g
}

#[test]
fn test_engine_health_and_compute() {
    let engine = ContextEngine::from_prebuilt(
        "semantic_data.json".to_string(),
        "/repo".to_string(),
        test_graph(),
    );

    let health = engine.health();
    assert_eq!(health.node_count, 2);
    assert_eq!(health.edge_count, 1);

    let res = engine
        .compute(ComputeRequest {
            symbols: vec!["sym/func1().".into()],
            policy: PolicyKind::Academic,
            max_tokens: None,
        })
        .unwrap();
    assert!(res.total_context_size > 0);
    assert_eq!(res.reachable_node_count, 2);
    assert!(!res.reachable_nodes_ordered.is_empty());
}

#[test]
fn test_engine_search_and_top() {
    let engine = ContextEngine::from_prebuilt(
        "semantic_data.json".to_string(),
        "/repo".to_string(),
        test_graph(),
    );

    let search = engine
        .search("func", true, None, true, PolicyKind::Academic, &no_tests(&engine))
        .unwrap();
    assert_eq!(search.total_matches, 1);
    assert_eq!(search.items[0].symbol, "sym/func1().");

    let top = engine
        .top(10, "all", true, PolicyKind::Academic, &no_tests(&engine))
        .unwrap();
    assert_eq!(top.items.len(), 2);
}

#[test]
fn test_engine_context_include_code() {
    let engine = ContextEngine::from_prebuilt(
        "semantic_data.json".to_string(),
        "/repo".to_string(),
        test_graph(),
    );

    let request = ContextRequest {
        symbol: "sym/func1().".into(),
        policy: PolicyKind::Academic,
        max_tokens: None,
        include_code: true,
        show_traversal: false,
    };
    let code: Vec<Vec<String>> = engine
        .code_requests(&request)
        .unwrap()
        .iter()
        .map(|wanted| read_lines(wanted.start_line as usize, wanted.end_line as usize))
        .collect();
    let ctx = engine.context(request, &code).unwrap();
    assert_eq!(ctx.symbol, "sym/func1().");
    assert!(!ctx.layers.is_empty());
    let any_code = ctx
        .layers
        .iter()
        .flat_map(|l| l.files.iter())
        .flat_map(|f| f.nodes.iter())
        .any(|n| n.code.as_ref().is_some_and(|c| !c.is_empty()));
    assert!(any_code);
}

#[test]
fn test_engine_reachable_reports_unresolved_and_witness_paths() {
    let engine = ContextEngine::from_prebuilt(
        "semantic_data.json".to_string(),
        "/repo".to_string(),
        test_graph(),
    );

    let result = engine
        .reachable(ReachabilityRequest {
            from: vec!["sym/func1().".into(), "missing/from".into()],
            to: vec!["sym/var1.".into(), "missing/to".into()],
            policy: PolicyKind::Academic,
            witness_paths: true,
            max_paths: 1,
        })
        .unwrap();

    assert!(result.reachable);
    assert_eq!(result.hit_targets, vec!["sym/var1.".to_string()]);
    assert_eq!(result.unresolved_from, vec!["missing/from".to_string()]);
    assert_eq!(result.unresolved_to, vec!["missing/to".to_string()]);
    assert_eq!(
        result.witness_paths,
        vec![vec!["sym/func1().".to_string(), "sym/var1.".to_string()]]
    );
    assert_eq!(result.visited_node_count, 2);
}

fn make_method_core(
    id: u32,
    name: &str,
    scope: &str,
    file_path: &str,
    start_line: u32,
    end_line: u32,
) -> NodeCore {
    NodeCore::new(
        id,
        name.to_string(),
        Some(scope.to_string()),
        10,
        SourceSpan {
            start_line,
            start_column: 0,
            end_line,
            end_column: 0,
        },
        score(1.0),
        false,
        file_path.to_string(),
    )
}

fn class_anchor_graph() -> ContextGraph {
    let mut g = ContextGraph::new();

    // Register class in TypeRegistry
    g.type_registry.register(
        "pkg/Plugin#".to_string(),
        TypeInfo {
            definition: TypeDefAttribute {
                type_kind: TypeKind::Class,
                is_abstract: false,
                type_param_count: 0,
                type_var_info: None,
            },
            context_size: 5,
            surface_fragment: ContextFragment::new(
                "pkg/Plugin#:surface".to_string(),
                None,
                None,
                5,
            ),
            doc_score: score(0.5),
            documentation: Vec::new(),
        },
    );

    // Public methods
    let run = Node::Function(FunctionNode {
        core: make_method_core(0, "run", "pkg/Plugin#", "plugin.py", 2, 5),
        parameters: Vec::new(),
        is_async: false,
        is_generator: false,
        visibility: Visibility::Public,
        return_types: vec![],
        is_interface_method: false,
        is_constructor: false,
        is_di_wired: false,
    });
    let render = Node::Function(FunctionNode {
        core: make_method_core(1, "render", "pkg/Plugin#", "plugin.py", 6, 10),
        parameters: Vec::new(),
        is_async: false,
        is_generator: false,
        visibility: Visibility::Public,
        return_types: vec![],
        is_interface_method: false,
        is_constructor: false,
        is_di_wired: false,
    });

    // Dunder method
    let call = Node::Function(FunctionNode {
        core: make_method_core(2, "__call__", "pkg/Plugin#", "plugin.py", 11, 15),
        parameters: Vec::new(),
        is_async: false,
        is_generator: false,
        visibility: Visibility::Public,
        return_types: vec![],
        is_interface_method: false,
        is_constructor: false,
        is_di_wired: false,
    });

    // Private helper (should be excluded from expansion)
    let helper = Node::Function(FunctionNode {
        core: make_method_core(3, "_helper", "pkg/Plugin#", "plugin.py", 16, 20),
        parameters: Vec::new(),
        is_async: false,
        is_generator: false,
        visibility: Visibility::Private,
        return_types: vec![],
        is_interface_method: false,
        is_constructor: false,
        is_di_wired: false,
    });

    // External dependency
    let ext_func = Node::Function(FunctionNode {
        core: make_core(4, "ext_func", "lib.py", 0, 5),
        parameters: Vec::new(),
        is_async: false,
        is_generator: false,
        visibility: Visibility::Public,
        return_types: vec![],
        is_interface_method: false,
        is_constructor: false,
        is_di_wired: false,
    });

    let i_run = g.add_node("pkg/Plugin#run().".into(), run);
    let i_render = g.add_node("pkg/Plugin#render().".into(), render);
    let _i_call = g.add_node("pkg/Plugin#__call__().".into(), call);
    let i_helper = g.add_node("pkg/Plugin#_helper().".into(), helper);
    let i_ext = g.add_node("lib/ext_func().".into(), ext_func);

    g.add_edge(i_run, i_helper, EdgeKind::Call);
    g.add_edge(i_run, i_ext, EdgeKind::Call);
    g.add_edge(i_render, i_ext, EdgeKind::Call);

    g
}

#[test]
fn test_class_anchor_expands_to_public_and_dunder_methods() {
    let engine = ContextEngine::from_prebuilt(
        "semantic_data.json".to_string(),
        "/repo".to_string(),
        class_anchor_graph(),
    );

    let res = engine
        .compute(ComputeRequest {
            symbols: vec!["pkg/Plugin#".into()],
            policy: PolicyKind::Academic,
            max_tokens: None,
        })
        .unwrap();

    let resolutions = res.anchor_resolutions.unwrap();
    assert_eq!(resolutions.len(), 1);
    assert_eq!(resolutions[0].resolved_kind, "class");
    let expanded = resolutions[0].expanded_to.as_ref().unwrap();
    assert!(expanded.contains(&"pkg/Plugin#__call__().".to_string()));
    assert!(expanded.contains(&"pkg/Plugin#render().".to_string()));
    assert!(expanded.contains(&"pkg/Plugin#run().".to_string()));
    // _helper should NOT be in the expansion
    assert!(!expanded.contains(&"pkg/Plugin#_helper().".to_string()));

    // CF should cover run, render, __call__ + their transitive deps (_helper via run, ext_func)
    assert!(res.total_context_size > 0);
    assert!(res.reachable_node_count >= 3); // at least the 3 expanded methods
}

#[test]
fn test_variable_anchor_compute() {
    let engine = ContextEngine::from_prebuilt(
        "semantic_data.json".to_string(),
        "/repo".to_string(),
        test_graph(),
    );

    let res = engine
        .compute(ComputeRequest {
            symbols: vec!["sym/var1.".into()],
            policy: PolicyKind::Academic,
            max_tokens: None,
        })
        .unwrap();

    let resolutions = res.anchor_resolutions.unwrap();
    assert_eq!(resolutions.len(), 1);
    assert_eq!(resolutions[0].resolved_kind, "module_variable");
    assert!(resolutions[0].expanded_to.is_none());
    assert!(resolutions[0].unresolved_reason.is_none());
    assert!(res.total_context_size > 0);
}

#[test]
fn test_mixed_anchor_compute() {
    let mut g = class_anchor_graph();

    let standalone_func = Node::Function(FunctionNode {
        core: make_core(10, "standalone", "main.py", 0, 5),
        parameters: Vec::new(),
        is_async: false,
        is_generator: false,
        visibility: Visibility::Public,
        return_types: vec![],
        is_interface_method: false,
        is_constructor: false,
        is_di_wired: false,
    });
    g.add_node("pkg/standalone().".into(), standalone_func);

    let var = Node::Variable(VariableNode {
        core: make_core(11, "CONFIG", "main.py", 6, 6),
        var_type: None,
        mutability: Mutability::Const,
        variable_kind: VariableKind::Global,
    });
    g.add_node("pkg/CONFIG.".into(), var);

    let engine = ContextEngine::from_prebuilt(
        "semantic_data.json".to_string(),
        "/repo".to_string(),
        g,
    );

    let res = engine
        .compute(ComputeRequest {
            symbols: vec![
                "pkg/Plugin#".into(),
                "pkg/standalone().".into(),
                "pkg/CONFIG.".into(),
            ],
            policy: PolicyKind::Academic,
            max_tokens: None,
        })
        .unwrap();

    let resolutions = res.anchor_resolutions.unwrap();
    assert_eq!(resolutions.len(), 3);
    assert_eq!(resolutions[0].resolved_kind, "class");
    assert!(resolutions[0].expanded_to.is_some());
    assert_eq!(resolutions[1].resolved_kind, "function");
    assert!(resolutions[1].expanded_to.is_none());
    assert_eq!(resolutions[2].resolved_kind, "constant");
    assert!(resolutions[2].expanded_to.is_none());

    // Starting symbols should include expanded class members + function + variable
    assert!(res.starting_symbols.len() >= 5);
}

#[test]
fn test_compute_unresolved_anchor_fails() {
    let engine = ContextEngine::from_prebuilt(
        "semantic_data.json".to_string(),
        "/repo".to_string(),
        test_graph(),
    );

    let err = engine
        .compute(ComputeRequest {
            symbols: vec!["nonexistent/symbol".into()],
            policy: PolicyKind::Academic,
            max_tokens: None,
        })
        .unwrap_err();
    assert!(err.message().contains("not found"));
}

#[test]
fn test_search_returns_class_symbols() {
    let engine = ContextEngine::from_prebuilt(
        "semantic_data.json".to_string(),
        "/repo".to_string(),
        class_anchor_graph(),
    );

    let result = engine
        .search("Plugin", false, None, true, PolicyKind::Academic, &no_tests(&engine))
        .unwrap();

    let class_items: Vec<_> = result
        .items
        .iter()
        .filter(|item| item.node_type == "class")
        .collect();
    assert!(
        !class_items.is_empty(),
        "Search should return class symbols from TypeRegistry"
    );
    assert_eq!(class_items[0].symbol, "pkg/Plugin#");
}

#[test]
fn test_search_shows_detailed_variable_kinds() {
    let mut g = ContextGraph::new();

    let const_var = Node::Variable(VariableNode {
        core: make_core(0, "MAX_SIZE", "config.py", 0, 0),
        var_type: None,
        mutability: Mutability::Const,
        variable_kind: VariableKind::Global,
    });
    g.add_node("pkg/MAX_SIZE.".into(), const_var);

    let mod_var = Node::Variable(VariableNode {
        core: make_core(1, "registry", "config.py", 1, 1),
        var_type: None,
        mutability: Mutability::Mutable,
        variable_kind: VariableKind::Global,
    });
    g.add_node("pkg/registry.".into(), mod_var);

    let engine = ContextEngine::from_prebuilt(
        "semantic_data.json".to_string(),
        "/repo".to_string(),
        g,
    );

    let result = engine
        .search("pkg", false, None, true, PolicyKind::Academic, &no_tests(&engine))
        .unwrap();

    let kinds: Vec<_> = result.items.iter().map(|i| i.node_type.as_str()).collect();
    assert!(kinds.contains(&"constant"));
    assert!(kinds.contains(&"module_variable"));
}

#[test]
fn test_class_expansion_uses_visibility_not_name() {
    let mut g = ContextGraph::new();
    g.type_registry.register(
        "pkg/MyClass#".to_string(),
        TypeInfo {
            definition: TypeDefAttribute {
                type_kind: TypeKind::Class,
                is_abstract: false,
                type_param_count: 0,
                type_var_info: None,
            },
            context_size: 5,
            surface_fragment: ContextFragment::new(
                "pkg/MyClass#:surface".to_string(),
                None,
                None,
                5,
            ),
            doc_score: score(0.5),
            documentation: Vec::new(),
        },
    );

    // _internal method marked Public by extractor (e.g. Python dunder convention)
    let internal_pub = Node::Function(FunctionNode {
        core: make_method_core(0, "_internal", "pkg/MyClass#", "a.py", 0, 2),
        parameters: Vec::new(),
        is_async: false,
        is_generator: false,
        visibility: Visibility::Public,
        return_types: vec![],
        is_interface_method: false,
        is_constructor: false,
        is_di_wired: false,
    });
    g.add_node("pkg/MyClass#_internal().".into(), internal_pub);

    // public_helper marked Private by extractor
    let pub_name_priv = Node::Function(FunctionNode {
        core: make_method_core(1, "public_helper", "pkg/MyClass#", "a.py", 3, 5),
        parameters: Vec::new(),
        is_async: false,
        is_generator: false,
        visibility: Visibility::Private,
        return_types: vec![],
        is_interface_method: false,
        is_constructor: false,
        is_di_wired: false,
    });
    g.add_node("pkg/MyClass#public_helper().".into(), pub_name_priv);

    let expanded = expand_class_anchor(&g, "pkg/MyClass#");
    assert!(expanded.contains(&"pkg/MyClass#_internal().".to_string()));
    assert!(!expanded.contains(&"pkg/MyClass#public_helper().".to_string()));
}
