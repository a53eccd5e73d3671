//! Requests to an engine, on given graphs.

use context_footprint::app::dto::{
    default_max_paths, CodeLine, ComputeRequest, ComputeResponse, ContextRequest, PolicyKind,
    ReachabilityRequest,
};
use context_footprint::app::engine::{
    boundary_stop_dtos, decision_display, detailed_node_type_str, edge_kind_display,
    node_type_str, pruning_params, span_dto, ContextEngine, EngineError,
};
use context_footprint::app::ranking::compute_distribution;
use context_footprint::domain::edge::EdgeKind;
use context_footprint::domain::graph::{ContextGraph, NodeIndex};
use context_footprint::domain::node::{
    ContextFragment, FunctionNode, Mutability, Node, NodeCore, SourceSpan, VariableKind,
    VariableNode, Visibility,
};
use context_footprint::domain::policy::{PruningDecision, ReasoningRelation};
use context_footprint::domain::score::Score;
use context_footprint::domain::solver::{BoundaryStop, Direction};
use context_footprint::domain::type_registry::{TypeDefAttribute, TypeInfo, TypeKind};

fn score(value: f32) -> Score {
    Score::from_bits(value.to_bits())
}

fn core_of(id: u32, name: &str, scope: Option<&str>, size: u32, path: &str, lines: (u32, u32)) -> NodeCore {
    NodeCore::new(
        id,
        name.to_string(),
        scope.map(|s| s.to_string()),
        size,
        SourceSpan {
            start_line: lines.0,
            start_column: 1,
            end_line: lines.1,
            end_column: 2,
        },
        score(0.0),
        false,
        path.to_string(),
    )
}

fn function(core: NodeCore, visibility: Visibility) -> Node {
    Node::Function(FunctionNode {
        core,
        parameters: Vec::new(),
        is_async: false,
        is_generator: false,
        visibility,
        return_types: vec![],
        is_interface_method: false,
        is_constructor: false,
        is_di_wired: false,
    })
}

fn variable(core: NodeCore, mutability: Mutability, variable_kind: VariableKind) -> Node {
    Node::Variable(VariableNode {
        core,
        var_type: None,
        mutability,
        variable_kind,
    })
}

/// A class with three methods, of which one is private, a function and a constant.
fn sample() -> ContextGraph {
    let mut g = ContextGraph::new();
    g.type_registry.register(
        "pkg/Plugin#".to_string(),
        TypeInfo {
            definition: TypeDefAttribute {
                type_kind: TypeKind::Class,
                is_abstract: false,
                type_param_count: 0,
                type_var_info: None,
            },
            context_size: 5,
            surface_fragment: ContextFragment::new(
                "pkg/Plugin#:surface".to_string(),
                None,
                None,
                5,
            ),
            doc_score: score(0.5),
            documentation: Vec::new(),
        },
    );
    let scope = Some("pkg/Plugin#");
    let run = g.add_node(
        "pkg/Plugin#run().".into(),
        function(core_of(0, "run", scope, 10, "b.py", (4, 6)), Visibility::Public),
    );
    let draw = g.add_node(
        "pkg/Plugin#draw().".into(),
        function(core_of(1, "draw", scope, 20, "b.py", (8, 9)), Visibility::Public),
    );
    let hide = g.add_node(
        "pkg/Plugin#hide().".into(),
        function(core_of(2, "hide", scope, 40, "b.py", (0, 2)), Visibility::Private),
    );
    let main = g.add_node(
        "pkg/main().".into(),
        function(core_of(3, "main", None, 80, "a.py", (0, 3)), Visibility::Public),
    );
    let limit = g.add_node(
        "pkg/LIMIT.".into(),
        variable(
            core_of(4, "LIMIT", None, 1, "a.py", (2, 2)),
            Mutability::Const,
            VariableKind::Global,
        ),
    );
    g.add_edge(run, hide, EdgeKind::Call);
    g.add_edge(draw, limit, EdgeKind::Read);
    g.add_edge(main, limit, EdgeKind::Read);
    g
}

fn engine_of(graph: ContextGraph) -> ContextEngine {
    ContextEngine::from_prebuilt("data.json".to_string(), "/repo".to_string(), graph)
}

fn engine() -> ContextEngine {
    engine_of(sample())
}

fn no_tests(engine: &ContextEngine) -> Vec<bool> {
    vec![false; engine.symbol_subjects().len()]
}

fn compute(engine: &ContextEngine, symbols: &[&str]) -> ComputeResponse {
    engine
        .compute(ComputeRequest {
            symbols: symbols.iter().map(|s| s.to_string()).collect(),
            policy: PolicyKind::Academic,
            max_tokens: None,
        })
        .unwrap()
}

fn ask(symbol: &str, include_code: bool, show_traversal: bool) -> ContextRequest {
    ContextRequest {
        symbol: symbol.to_string(),
        policy: PolicyKind::Strict,
        max_tokens: None,
        include_code,
        show_traversal,
    }
}

#[test]
fn health_tells_paths_and_counts() {
    let mut engine = engine();
    let health = engine.health();
    assert_eq!(health.semantic_path, "data.json");
    assert_eq!(health.project_root, "/repo");
    assert_eq!((health.node_count, health.edge_count), (5, 3));
    let failed: Result<_, &str> = engine.reload(Err("unreadable"));
    assert!(matches!(failed, Err("unreadable")));
    let health = engine.health();
    assert_eq!(health.semantic_path, "data.json");
    assert_eq!(health.project_root, "/repo");
    assert_eq!((health.node_count, health.edge_count), (5, 3));
    let reloaded: Result<_, &str> =
        engine.reload(Ok(("/other".to_string(), ContextGraph::new())));
    let health = reloaded.unwrap();
    assert_eq!(health.project_root, engine.health().project_root);
    assert_eq!(health.node_count, engine.health().node_count);
    assert_eq!(health.semantic_path, "data.json");
    assert_eq!(health.project_root, "/other");
    assert_eq!((health.node_count, health.edge_count), (0, 0));
    assert!(engine.node_subjects().is_empty());
}

#[test]
fn classes_stand_for_their_public_methods() {
    let engine = engine();
    let class = compute(&engine, &["pkg/Plugin#"]);
    let methods = compute(&engine, &["pkg/Plugin#draw().", "pkg/Plugin#run()."]);
    assert_eq!(class.starting_symbols, methods.starting_symbols);
    assert_eq!(class.cf_total, methods.cf_total);
    assert_eq!(class.out_fragments, methods.out_fragments);
    assert_eq!(class.in_fragments, methods.in_fragments);
    assert_eq!(class.cf_total, 10 + 20 + 40 + 1);
    let resolution = &class.anchor_resolutions.unwrap()[0];
    assert_eq!(resolution.input, "pkg/Plugin#");
    assert_eq!(resolution.resolved_kind, "class");
    assert_eq!(
        resolution.expanded_to,
        Some(vec![
            "pkg/Plugin#draw().".to_string(),
            "pkg/Plugin#run().".to_string(),
        ])
    );
}

#[test]
fn nodes_stand_for_themselves() {
    let engine = engine();
    let method = compute(&engine, &["pkg/Plugin#hide()."]);
    assert_eq!(method.starting_symbols, vec!["pkg/Plugin#hide().".to_string()]);
    let resolution = &method.anchor_resolutions.unwrap()[0];
    assert_eq!(resolution.resolved_kind, "method");
    assert!(resolution.expanded_to.is_none());
    let symbols: Vec<&str> = method
        .reachable_nodes_ordered
        .iter()
        .map(|node| node.symbol.as_str())
        .collect();
    assert_eq!(symbols, vec!["pkg/Plugin#hide().", "pkg/Plugin#run()."]);
    let node = &method.reachable_nodes_ordered[0];
    assert_eq!(node.id, 2);
    assert_eq!(node.node_type, "function");
    assert_eq!(node.context_size, 40);
    assert_eq!(node.file_path, "b.py");
    assert_eq!((node.span.start_line, node.span.start_line_1based), (0, 1));
    assert_eq!((node.span.end_line, node.span.end_line_1based), (2, 3));
    assert_eq!(method.reachable_nodes_by_layer.len(), 1);
    assert_eq!(method.boundary_policy_id, "syntactic:academic:doc=0.500");
}

#[test]
fn the_first_unknown_symbol_is_reported() {
    let error = engine()
        .compute(ComputeRequest {
            symbols: vec!["pkg/main().".into(), "no/one".into(), "no/two".into()],
            policy: PolicyKind::Academic,
            max_tokens: None,
        })
        .unwrap_err();
    assert_eq!(error, EngineError::SymbolNotFound("no/one".to_string()));
    assert_eq!(error.message(), "Symbol not found: no/one");
    let error = engine().context(ask("no/one", false, false), &vec![]).unwrap_err();
    assert_eq!(error, EngineError::SymbolNotFound("no/one".to_string()));
    let error = engine().code_requests(&ask("no/one", true, false)).unwrap_err();
    assert_eq!(error, EngineError::SymbolNotFound("no/one".to_string()));
}

#[test]
fn numbers_that_do_not_fit_are_refused() {
    let mut g = ContextGraph::new();
    let a = g.add_node(
        "a".into(),
        function(core_of(0, "a", None, u32::MAX, "a.py", (0, 1)), Visibility::Public),
    );
    let b = g.add_node(
        "b".into(),
        function(core_of(1, "b", None, 1, "a.py", (0, 1)), Visibility::Public),
    );
    g.add_edge(a, b, EdgeKind::Call);
    g.add_node(
        "c".into(),
        function(core_of(2, "c", None, 1, "a.py", (0, u32::MAX)), Visibility::Public),
    );
    let engine = engine_of(g);
    let request = |symbol: &str| ComputeRequest {
        symbols: vec![symbol.to_string()],
        policy: PolicyKind::Academic,
        max_tokens: None,
    };
    for symbol in ["a", "c"] {
        let error = engine.compute(request(symbol)).unwrap_err();
        assert_eq!(error, EngineError::Unrepresentable);
        assert_eq!(error.message(), "Number too large");
        let error = engine.context(ask(symbol, false, false), &vec![]).unwrap_err();
        assert_eq!(error, EngineError::Unrepresentable);
    }
    let tests = vec![false; 3];
    assert!(matches!(
        engine.stats(true, PolicyKind::Academic, &tests),
        Err(EngineError::Unrepresentable)
    ));
    assert!(matches!(
        engine.top(1, "all", true, PolicyKind::Academic, &tests),
        Err(EngineError::Unrepresentable)
    ));
    assert!(matches!(
        engine.search("a", true, None, true, PolicyKind::Academic, &tests),
        Err(EngineError::Unrepresentable)
    ));
}

#[test]
fn limits_of_a_request_are_kept() {
    let response = engine()
        .compute(ComputeRequest {
            symbols: vec!["pkg/Plugin#run().".into()],
            policy: PolicyKind::Academic,
            max_tokens: Some(15),
        })
        .unwrap();
    assert!(response.truncated);
    assert!(response.unresolved_state_count > 0);
    assert_eq!(response.cf_total, 10);
}

#[test]
fn distributions_are_consistent() {
    let d = compute_distribution((1..=101).rev().collect());
    assert_eq!(d.count, 101);
    assert_eq!((d.min, d.median, d.max, d.average), (1, 51, 101, 51));
    assert_eq!(d.percentiles.len(), 20);
    for (i, value) in d.percentiles.iter().enumerate() {
        assert_eq!(value.percentile, 5 * (i as u32 + 1));
        assert_eq!(value.tokens, value.percentile + 1);
    }
    let d = compute_distribution(vec![7, 2, 2]);
    assert_eq!((d.min, d.median, d.max, d.average), (2, 2, 7, 3));
    assert_eq!(d.percentiles[19].tokens, 7);
    let d = compute_distribution(vec![u32::MAX, u32::MAX]);
    assert_eq!(d.average, u32::MAX as u64);
    let d = compute_distribution(vec![]);
    assert_eq!((d.count, d.min, d.median, d.max, d.average), (0, 0, 0, 0, 0));
}

#[test]
fn statistics_count_functions() {
    let engine = engine();
    let mut is_test = vec![false; 5];
    let all = engine.stats(false, PolicyKind::Academic, &is_test).unwrap();
    assert_eq!(all.functions.count, 4);
    assert_eq!((all.functions.min, all.functions.max), (21, 81));
    is_test[3] = true;
    let rest = engine.stats(false, PolicyKind::Academic, &is_test).unwrap();
    assert_eq!(rest.functions.count, 3);
    assert_eq!(rest.functions.max, 50);
    let with = engine.stats(true, PolicyKind::Academic, &is_test).unwrap();
    assert_eq!(with.functions.count, 4);
    assert_eq!(
        engine.node_subjects()[3],
        ("pkg/main().".to_string(), "a.py".to_string())
    );
}

#[test]
fn rankings_descend() {
    let engine = engine();
    let top = |limit: usize, kind: &str, is_test: &Vec<bool>| -> Vec<(String, u32)> {
        engine
            .top(limit, kind, false, PolicyKind::Academic, is_test)
            .unwrap()
            .items
            .iter()
            .map(|item| (item.symbol.clone(), item.cf))
            .collect()
    };
    let mut is_test = no_tests(&engine);
    let expected = vec![
        ("pkg/main().".to_string(), 81),
        ("pkg/Plugin#run().".to_string(), 50),
        ("pkg/Plugin#hide().".to_string(), 50),
        ("pkg/Plugin#draw().".to_string(), 21),
    ];
    let functions = top(10, "function", &is_test);
    assert_eq!(functions.len(), 4);
    assert_eq!(functions[0], expected[0]);
    assert_eq!(functions[3], expected[3]);
    for pair in functions.windows(2) {
        assert!(pair[0].1 >= pair[1].1);
    }
    for item in &functions {
        assert!(expected.contains(item));
    }
    assert_eq!(top(10, "all", &is_test).len(), 5);
    assert_eq!(top(10, "variable", &is_test).len(), 1);
    assert_eq!(top(1, "all", &is_test), expected[..1].to_vec());
    is_test[3] = true;
    assert_eq!(top(10, "function", &is_test).len(), 3);
}

#[test]
fn searches_disregard_case() {
    let engine = engine();
    let tests = no_tests(&engine);
    let found = |pattern: &str, with_cf: bool, limit: Option<usize>| {
        engine
            .search(pattern, with_cf, limit, true, PolicyKind::Academic, &tests)
            .unwrap()
    };
    let all = found("PLUGIN", true, None);
    assert_eq!(all.total_matches, 4);
    assert_eq!(all.items[0].symbol, "pkg/Plugin#");
    assert_eq!(all.items[0].node_type, "class");
    assert_eq!(all.items[0].cf, Some(71));
    for pair in all.items.windows(2) {
        assert!(pair[0].cf >= pair[1].cf);
    }
    let limited = found("plugin", false, Some(2));
    assert_eq!(limited.total_matches, 4);
    assert_eq!(limited.items.len(), 2);
    let plain = found("limit", false, None);
    assert_eq!(plain.items.len(), 1);
    assert_eq!(plain.items[0].node_type, "constant");
    assert_eq!(plain.items[0].cf, None);
    assert_eq!(found("nothing", true, None).total_matches, 0);
    let mut marked = tests.clone();
    marked[3] = true;
    let hidden = engine
        .search("main", false, None, false, PolicyKind::Academic, &marked)
        .unwrap();
    assert_eq!(hidden.total_matches, 0);
}

#[test]
fn searches_take_lowered_texts() {
    let engine = engine();
    let lowered: Vec<String> = engine
        .symbol_subjects()
        .iter()
        .map(|(symbol, _)| symbol.to_lowercase())
        .collect();
    let types = vec!["pkg/plugin#".to_string()];
    let tests = no_tests(&engine);
    let response = engine
        .search_lowered("plugin", &lowered, &types, true, None, true, PolicyKind::Academic, &tests)
        .unwrap();
    assert_eq!(response.total_matches, 4);
    let response = engine
        .search_lowered("Plugin", &lowered, &types, true, None, true, PolicyKind::Academic, &tests)
        .unwrap();
    assert_eq!(response.total_matches, 0);
}

#[test]
fn contexts_are_grouped_by_file_and_line() {
    let engine = engine();
    let response = engine.context(ask("pkg/Plugin#run().", false, true), &vec![]).unwrap();
    assert_eq!(response.symbol, "pkg/Plugin#run().");
    assert_eq!(response.boundary_policy_id, "syntactic:strict:doc=0.800");
    assert_eq!(response.cf_total, 50);
    assert_eq!(response.reachable_node_count, 2);
    assert_eq!(response.layers.len(), 1);
    assert_eq!(response.layers[0].depth, 0);
    let files = &response.layers[0].files;
    assert_eq!(files.len(), 1);
    assert_eq!(files[0].file_path, "b.py");
    let names: Vec<&str> = files[0].nodes.iter().map(|node| node.symbol.as_str()).collect();
    assert_eq!(names, vec!["pkg/Plugin#hide().", "pkg/Plugin#run()."]);
    assert!(files[0].nodes[0].code.is_none());
    let steps = response.traversal_steps.unwrap();
    assert_eq!(steps.len(), 2);
    assert_eq!(steps[0].node.symbol, "pkg/Plugin#run().");
    assert!(steps[0].edge_kind.is_none() && steps[0].decision.is_none());
    assert_eq!(steps[1].edge_kind.as_deref(), Some("Call"));
    assert_eq!(steps[1].decision.as_deref(), Some("Transparent"));
}

#[test]
fn contexts_show_the_code_of_outer_nodes() {
    let engine = engine();
    let request = ask("pkg/main().", true, false);
    let wanted = engine.code_requests(&request).unwrap();
    // The constant lies within the function and is shown with it.
    assert_eq!(wanted.len(), 1);
    assert_eq!(wanted[0].file_path, "a.py");
    assert_eq!((wanted[0].start_line, wanted[0].end_line), (0, 3));
    let code = vec![vec!["def main():".to_string(), "    pass".to_string()]];
    let response = engine.context(request, &code).unwrap();
    let nodes = &response.layers[0].files[0].nodes;
    assert_eq!(nodes.len(), 1);
    let lines: Vec<(u32, &str)> = nodes[0]
        .code
        .as_ref()
        .unwrap()
        .iter()
        .map(|line: &CodeLine| (line.line_number, line.text.as_str()))
        .collect();
    assert_eq!(lines, vec![(1, "def main():"), (2, "    pass")]);
    assert!(response.traversal_steps.is_none());
    assert_eq!(
        engine.filter_top_level_nodes(vec![NodeIndex::new(3), NodeIndex::new(4)]),
        vec![NodeIndex::new(3)]
    );
}

#[test]
fn unresolved_symbols_do_not_stop_a_search() {
    let engine = engine();
    let request = |from: &[&str], to: &[&str], max_paths: usize| ReachabilityRequest {
        from: from.iter().map(|s| s.to_string()).collect(),
        to: to.iter().map(|s| s.to_string()).collect(),
        policy: PolicyKind::Strict,
        witness_paths: true,
        max_paths,
    };
    let hit = engine
        .reachable(request(&["pkg/Plugin#run()."], &["pkg/Plugin#hide().", "no/one"], 1))
        .unwrap();
    assert!(hit.reachable);
    assert_eq!(hit.unresolved_to, vec!["no/one".to_string()]);
    assert_eq!(
        hit.witness_paths,
        vec![vec![
            "pkg/Plugin#run().".to_string(),
            "pkg/Plugin#hide().".to_string(),
        ]]
    );
    let none = engine.reachable(request(&["no/one"], &["pkg/main()."], 1)).unwrap();
    assert!(!none.reachable);
    assert_eq!(none.unresolved_from, vec!["no/one".to_string()]);
    assert_eq!(none.visited_node_count, 0);
    assert_eq!(default_max_paths(), 1);
}

#[test]
fn labels_of_kinds() {
    let plain = function(core_of(0, "f", None, 1, "a.py", (0, 1)), Visibility::Public);
    let method = function(core_of(0, "f", Some("C#"), 1, "a.py", (0, 1)), Visibility::Public);
    let kind = |mutability: Mutability, variable_kind: VariableKind| {
        let node = variable(core_of(0, "v", None, 1, "a.py", (0, 1)), mutability, variable_kind);
        assert_eq!(node_type_str(&node), "variable");
        detailed_node_type_str(&node)
    };
    assert_eq!(node_type_str(&method), "function");
    assert_eq!(detailed_node_type_str(&plain), "function");
    assert_eq!(detailed_node_type_str(&method), "method");
    assert_eq!(kind(Mutability::Const, VariableKind::Global), "constant");
    assert_eq!(kind(Mutability::Const, VariableKind::ClassField), "class_variable");
    assert_eq!(kind(Mutability::Mutable, VariableKind::Global), "module_variable");
    assert_eq!(edge_kind_display(&EdgeKind::OverriddenBy), "OverriddenBy");
    assert_eq!(edge_kind_display(&EdgeKind::Annotates), "Annotates");
    assert_eq!(decision_display(&PruningDecision::Boundary), "Boundary");
    assert_eq!(decision_display(&PruningDecision::Transparent), "Transparent");
    let stops = boundary_stop_dtos(&vec![BoundaryStop {
        source: 3,
        target: 4,
        direction: Direction::In,
        relation: ReasoningRelation::ParentContract,
    }]);
    assert_eq!((stops[0].source_node_id, stops[0].target_node_id), (3, 4));
    assert_eq!(stops[0].direction, "In");
    assert_eq!(stops[0].relation, "ParentContract");
    let span = span_dto(&SourceSpan {
        start_line: 4,
        start_column: 1,
        end_line: 9,
        end_column: 2,
    });
    assert_eq!((span.start_line_1based, span.end_line_1based), (5, 10));
    assert_eq!((span.start_column, span.end_column), (1, 2));
    assert_eq!(pruning_params(PolicyKind::Academic).doc_threshold, score(0.5));
    assert_eq!(pruning_params(PolicyKind::Strict).doc_threshold, score(0.8));
}
