use context_footprint::domain::edge::EdgeKind;
use context_footprint::domain::graph::{ContextGraph, NodeIndex};
use context_footprint::domain::node::{
    ContextFragment, FunctionNode, Mutability, Node, NodeCore, Parameter, SourceSpan, VariableKind,
    VariableNode, Visibility,
};
use context_footprint::domain::policy::PruningParams;
use context_footprint::domain::score::Score;
use context_footprint::domain::solver::{CfSolver, ReachabilityOptions};
use std::sync::Arc;

/// The score that a number stands for.
fn score(value: f32) -> Score {
    Score::from_bits(value.to_bits())
}

fn test_node(id: u32, name: &str, context_size: u32) -> Node {
    let span = SourceSpan {
        start_line: 0,
        start_column: 0,
        end_line: 1,
        end_column: 10,
    };
    let core = NodeCore::new(
        id,
        name.to_string(),
        None,
        context_size,
        span,
        score(0.5),
        false,
        "test.py".to_string(),
    );
    Node::Function(FunctionNode {
        core,
        parameters: Vec::new(),
        is_async: false,
        is_generator: false,
        visibility: Visibility::Public,
        return_types: vec![],
        is_interface_method: false,
        is_constructor: false,
        is_di_wired: false,
    })
}

fn test_var_node(id: u32, name: &str, mutability: Mutability) -> Node {
    let span = SourceSpan {
        start_line: 0,
        start_column: 0,
        end_line: 1,
        end_column: 10,
    };
    let core = NodeCore::new(
        id,
        name.to_string(),
        None,
        1,
        span,
        score(0.5),
        false,
        "test.py".to_string(),
    );
    Node::Variable(VariableNode {
        core,
        var_type: None,
        mutability,
        variable_kind: VariableKind::Global,
    })
}

fn fragment_node(
    id: u32,
    name: &str,
    surface_size: u32,
    implementation_size: u32,
    reliable_contract: bool,
) -> Node {
    let span = SourceSpan {
        start_line: id,
        start_column: 0,
        end_line: id + 1,
        end_column: 0,
    };
    let core = NodeCore::with_fragments(
        id,
        name.to_string(),
        None,
        ContextFragment::new(
            format!("{name}:surface"),
            Some(span),
            None,
            surface_size,
        ),
        Some(ContextFragment::new(
            format!("{name}:implementation"),
            Some(span),
            None,
            implementation_size,
        )),
        span,
        score(if reliable_contract { 1.0 } else { 0.0 }),
        Vec::new(),
        false,
        "test.py".to_string(),
    );
    Node::Function(FunctionNode {
        core,
        parameters: Vec::new(),
        is_async: false,
        is_generator: false,
        visibility: Visibility::Public,
        return_types: if reliable_contract {
            vec!["int".to_string()]
        } else {
            Vec::new()
        },
        is_interface_method: false,
        is_constructor: false,
        is_di_wired: false,
    })
}

/// Node that qualifies as boundary under academic(score(0.5)): sig complete + doc_score >= 0.5.
fn test_node_boundary(id: u32, name: &str, context_size: u32) -> Node {
    let span = SourceSpan {
        start_line: 0,
        start_column: 0,
        end_line: 1,
        end_column: 10,
    };
    let core = NodeCore::new(
        id,
        name.to_string(),
        None,
        context_size,
        span,
        score(0.8),
        false,
        "test.py".to_string(),
    );
    Node::Function(FunctionNode {
        core,
        parameters: vec![Parameter {
            name: "x".to_string(),
            param_type: Some("int#".to_string()),
            is_high_freedom_type: false,
        }],
        is_async: false,
        is_generator: false,
        visibility: Visibility::Public,
        return_types: vec!["int#".to_string()],
        is_interface_method: false,
        is_constructor: false,
        is_di_wired: false,
    })
}

#[test]
fn test_single_node_cf() {
    let mut graph = ContextGraph::new();
    let idx = graph.add_node("sym::a".into(), test_node(0, "a", 100));
    let solver = CfSolver::new(Arc::new(graph), PruningParams::strict(score(0.5)));
    let result = solver.compute_cf(&[idx], None);
    assert_eq!(result.reachable_set.len(), 1);
    assert!(result.reachable_set.contains(&0));
    assert_eq!(result.total_context_size, 100);
}

#[test]
fn test_linear_dependency_chain() {
    let mut graph = ContextGraph::new();
    let a = graph.add_node("sym::a".into(), test_node(0, "a", 10));
    let b = graph.add_node("sym::b".into(), test_node(1, "b", 20));
    let c = graph.add_node("sym::c".into(), test_node(2, "c", 30));
    graph.add_edge(a, b, EdgeKind::Call);
    graph.add_edge(b, c, EdgeKind::Call);
    let solver = CfSolver::new(Arc::new(graph), PruningParams::strict(score(0.5)));
    let result = solver.compute_cf(&[a], None);
    assert_eq!(result.reachable_set.len(), 3);
    assert_eq!(result.total_context_size, 10 + 20 + 30);
}

#[test]
fn test_diamond_dependency() {
    let mut graph = ContextGraph::new();
    let a = graph.add_node("sym::a".into(), test_node(0, "a", 10));
    let b = graph.add_node("sym::b".into(), test_node(1, "b", 20));
    let c = graph.add_node("sym::c".into(), test_node(2, "c", 30));
    let d = graph.add_node("sym::d".into(), test_node(3, "d", 40));
    graph.add_edge(a, b, EdgeKind::Call);
    graph.add_edge(a, c, EdgeKind::Call);
    graph.add_edge(b, d, EdgeKind::Call);
    graph.add_edge(c, d, EdgeKind::Call);
    let solver = CfSolver::new(Arc::new(graph), PruningParams::strict(score(0.5)));
    let result = solver.compute_cf(&[a], None);
    assert_eq!(result.reachable_set.len(), 4);
    assert_eq!(result.total_context_size, 10 + 20 + 30 + 40);
}

#[test]
fn test_cycle_detection() {
    let mut graph = ContextGraph::new();
    let a = graph.add_node("sym::a".into(), test_node(0, "a", 10));
    let b = graph.add_node("sym::b".into(), test_node(1, "b", 20));
    let c = graph.add_node("sym::c".into(), test_node(2, "c", 30));
    graph.add_edge(a, b, EdgeKind::Call);
    graph.add_edge(b, c, EdgeKind::Call);
    graph.add_edge(c, a, EdgeKind::Call);
    let solver = CfSolver::new(Arc::new(graph), PruningParams::strict(score(0.5)));
    let result = solver.compute_cf(&[a], None);
    assert_eq!(result.reachable_set.len(), 3);
    assert_eq!(result.total_context_size, 10 + 20 + 30);
}

#[test]
fn test_boundary_stops_traversal() {
    let mut graph = ContextGraph::new();
    let a = graph.add_node("sym::a".into(), test_node(0, "a", 10));
    let b = graph.add_node("sym::b".into(), test_node_boundary(1, "b", 20));
    let c = graph.add_node("sym::c".into(), test_node(2, "c", 30));
    graph.add_edge(a, b, EdgeKind::Call);
    graph.add_edge(b, c, EdgeKind::Call);
    let solver = CfSolver::new(Arc::new(graph), PruningParams::academic(score(0.5)));
    let result = solver.compute_cf(&[a], None);
    assert_eq!(result.reachable_set.len(), 2); // a and b; c is not traversed
    assert_eq!(result.total_context_size, 10 + 20); // a and b both count
}

#[test]
fn test_transparent_node_continues() {
    let mut graph = ContextGraph::new();
    let a = graph.add_node("sym::a".into(), test_node(0, "a", 10));
    let b = graph.add_node("sym::b".into(), test_node(1, "b", 20));
    let c = graph.add_node("sym::c".into(), test_node(2, "c", 30));
    graph.add_edge(a, b, EdgeKind::Call);
    graph.add_edge(b, c, EdgeKind::Call);
    let solver = CfSolver::new(Arc::new(graph), PruningParams::strict(score(0.5)));
    let result = solver.compute_cf(&[a], None);
    assert_eq!(result.reachable_set.len(), 3);
    assert_eq!(result.total_context_size, 60);
}

#[test]
fn test_reachable_respects_boundary_pruning() {
    let mut graph = ContextGraph::new();
    let a = graph.add_node("sym::a".into(), test_node(0, "a", 10));
    let b = graph.add_node("sym::b".into(), test_node_boundary(1, "b", 20));
    let c = graph.add_node("sym::c".into(), test_node(2, "c", 30));
    graph.add_edge(a, b, EdgeKind::Call);
    graph.add_edge(b, c, EdgeKind::Call);

    let solver = CfSolver::new(Arc::new(graph), PruningParams::academic(score(0.5)));
    let reachable_b = solver.reachable(&[a], &[b], ReachabilityOptions::default());
    let reachable_c = solver.reachable(&[a], &[c], ReachabilityOptions::default());

    assert!(reachable_b.reachable);
    assert!(!reachable_c.reachable);
}

#[test]
fn test_reachable_supports_reverse_call_in_and_witness_paths() {
    let mut graph = ContextGraph::new();
    let caller = graph.add_node("sym::caller".into(), test_node(0, "caller", 10));
    let callee = graph.add_node("sym::callee".into(), test_node(1, "callee", 20));
    let state = graph.add_node(
        "sym::state".into(),
        test_var_node(2, "state", Mutability::Mutable),
    );

    graph.add_edge(caller, callee, EdgeKind::Call);
    graph.add_edge(callee, state, EdgeKind::Write);

    let solver = CfSolver::new(Arc::new(graph), PruningParams::strict(score(0.5)));
    let result = solver.reachable(
        &[callee],
        &[caller],
        ReachabilityOptions {
            witness_paths: true,
            max_paths: 1,
        },
    );

    assert!(result.reachable);
    assert_eq!(result.hit_targets, vec![0]);
    assert_eq!(result.witness_paths, vec![vec![1, 0]]);
}

#[test]
fn test_reachable_uses_union_of_multiple_starts_and_targets() {
    let mut graph = ContextGraph::new();
    let a = graph.add_node("sym::a".into(), test_node(0, "a", 10));
    let b = graph.add_node("sym::b".into(), test_node(1, "b", 10));
    let x = graph.add_node("sym::x".into(), test_node(2, "x", 10));
    let y = graph.add_node("sym::y".into(), test_node(3, "y", 10));
    graph.add_edge(a, b, EdgeKind::Call);
    graph.add_edge(x, y, EdgeKind::Call);

    let solver = CfSolver::new(Arc::new(graph), PruningParams::strict(score(0.5)));
    let result = solver.reachable(
        &[a, x],
        &[b, y],
        ReachabilityOptions {
            witness_paths: true,
            max_paths: 2,
        },
    );

    assert!(result.reachable);
    assert_eq!(result.hit_targets, vec![1, 3]);
    assert_eq!(result.witness_paths, vec![vec![0, 1], vec![2, 3]]);
}

#[test]
fn test_shared_state_write_expansion() {
    // Reader R reads mutable var V; W1 and W2 write to V. Reverse exploration from V follows incoming Write to W1, W2.
    let mut graph = ContextGraph::new();
    let r = graph.add_node("sym::r".into(), test_node(0, "r", 10));
    let v_span = SourceSpan {
        start_line: 0,
        start_column: 0,
        end_line: 1,
        end_column: 5,
    };
    let v_core = NodeCore::new(
        1,
        "v".to_string(),
        None,
        1,
        v_span,
        score(0.0),
        false,
        "test.py".to_string(),
    );
    let var = Node::Variable(VariableNode {
        core: v_core,
        var_type: Some("int#".to_string()),
        mutability: Mutability::Mutable,
        variable_kind: VariableKind::Global,
    });
    let var_idx = graph.add_node("sym::v".into(), var);
    let w1 = graph.add_node("sym::w1".into(), test_node(2, "w1", 20));
    let w2 = graph.add_node("sym::w2".into(), test_node(3, "w2", 30));
    graph.add_edge(r, var_idx, EdgeKind::Read);
    graph.add_edge(w1, var_idx, EdgeKind::Write);
    graph.add_edge(w2, var_idx, EdgeKind::Write);
    let solver = CfSolver::new(Arc::new(graph), PruningParams::strict(score(0.5)));
    let result = solver.compute_cf(&[r], None);
    assert_eq!(result.reachable_set.len(), 4); // r, v, w1, w2
    assert_eq!(result.total_context_size, 10 + 1 + 20 + 30);
}

#[test]
fn test_call_in_expansion() {
    // Caller --Call--> Callee. Start at Callee; call-in exploration follows incoming Call to Caller.
    let mut graph = ContextGraph::new();
    let callee = graph.add_node("sym::callee".into(), test_node(0, "callee", 10));
    let caller = graph.add_node("sym::caller".into(), test_node(1, "caller", 25));
    let var = graph.add_node(
        "sym::var".into(),
        test_var_node(2, "var", Mutability::Mutable),
    );
    graph.add_edge(caller, callee, EdgeKind::Call);
    // Make callee impure so call-in happens
    graph.add_edge(callee, var, EdgeKind::Write);

    let solver = CfSolver::new(Arc::new(graph), PruningParams::strict(score(0.5)));
    let result = solver.compute_cf(&[callee], None);
    assert_eq!(result.reachable_set.len(), 3); // callee, var (forward), caller (call-in)
    assert_eq!(result.total_context_size, 10 + 25 + 1);
}

#[test]
fn test_different_policies_different_results() {
    let mut graph = ContextGraph::new();
    let a = graph.add_node("sym::a".into(), test_node(0, "a", 10));
    let b = graph.add_node("sym::b".into(), test_node_boundary(1, "b", 20));
    let c = graph.add_node("sym::c".into(), test_node(2, "c", 30));
    graph.add_edge(a, b, EdgeKind::Call);
    graph.add_edge(b, c, EdgeKind::Call);
    let graph_arc = Arc::new(graph);
    let solver_trans = CfSolver::new(Arc::clone(&graph_arc), PruningParams::strict(score(0.5)));
    let solver_bound = CfSolver::new(graph_arc, PruningParams::academic(score(0.5)));
    let res_trans = solver_trans.compute_cf(&[a], None);
    let res_bound = solver_bound.compute_cf(&[a], None);
    assert_eq!(res_trans.total_context_size, 60);
    assert_eq!(res_bound.total_context_size, 30); // a and b, c not traversed
    assert_eq!(res_trans.reachable_set.len(), 3);
    assert_eq!(res_bound.reachable_set.len(), 2);
}

#[test]
fn test_disconnected_component_not_reached() {
    let mut graph = ContextGraph::new();
    let a = graph.add_node("sym::a".into(), test_node(0, "a", 10));
    let _b = graph.add_node("sym::b".into(), test_node(1, "b", 20));
    graph.add_edge(a, a, EdgeKind::Call); // self-loop only, b is disconnected
    let solver = CfSolver::new(Arc::new(graph), PruningParams::strict(score(0.5)));
    let result = solver.compute_cf(&[a], None);
    assert_eq!(result.reachable_set.len(), 1);
    assert_eq!(result.total_context_size, 10);
}

#[test]
fn test_multiple_edges_from_same_source() {
    let mut graph = ContextGraph::new();
    let a = graph.add_node("sym::a".into(), test_node(0, "a", 10));
    let b = graph.add_node("sym::b".into(), test_node(1, "b", 20));
    let c = graph.add_node("sym::c".into(), test_node(2, "c", 30));
    graph.add_edge(a, b, EdgeKind::Call);
    graph.add_edge(a, c, EdgeKind::Call);
    let solver = CfSolver::new(Arc::new(graph), PruningParams::strict(score(0.5)));
    let result = solver.compute_cf(&[a], None);
    assert_eq!(result.reachable_set.len(), 3);
    assert_eq!(result.total_context_size, 60);
}

#[test]
fn test_start_at_middle_of_chain() {
    // A -> B -> C. Start at B. B has incomplete spec so call-in exploration reaches A.
    // B's context_size (250) is above LEAF_UTILITY_SIZE_THRESHOLD so call-in is explored.
    let mut graph = ContextGraph::new();
    let a = graph.add_node("sym::a".into(), test_node(0, "a", 10));
    let b = graph.add_node("sym::b".into(), test_node(1, "b", 250));
    let c = graph.add_node("sym::c".into(), test_node(2, "c", 30));
    let var = graph.add_node(
        "sym::var".into(),
        test_var_node(3, "var", Mutability::Mutable),
    );
    graph.add_edge(a, b, EdgeKind::Call);
    graph.add_edge(b, c, EdgeKind::Call);
    // Make b impure so call-in happens
    graph.add_edge(b, var, EdgeKind::Write);

    let solver = CfSolver::new(Arc::new(graph), PruningParams::strict(score(0.5)));
    let result = solver.compute_cf(&[b], None);
    assert_eq!(result.reachable_set.len(), 4); // B, then C and var (forward), A (call-in)
    assert_eq!(result.total_context_size, 10 + 250 + 30 + 1);
}

#[test]
fn test_boundary_node_still_in_reachable_set() {
    let mut graph = ContextGraph::new();
    let a = graph.add_node("sym::a".into(), test_node(0, "a", 10));
    let b = graph.add_node("sym::b".into(), test_node_boundary(1, "b", 99));
    graph.add_edge(a, b, EdgeKind::Call);
    let solver = CfSolver::new(Arc::new(graph), PruningParams::academic(score(0.5)));
    let result = solver.compute_cf(&[a], None);
    assert!(result.reachable_set.contains(&0));
    assert!(result.reachable_set.contains(&1));
    assert_eq!(result.total_context_size, 10 + 99);
}

#[test]
fn test_multi_node_union_cf() {
    let mut graph = ContextGraph::new();
    // A -> C, B -> C, C -> D. E is independent.
    let a = graph.add_node("sym::a".into(), test_node(0, "a", 10));
    let b = graph.add_node("sym::b".into(), test_node(1, "b", 20));
    let c = graph.add_node("sym::c".into(), test_node(2, "c", 30));
    let d = graph.add_node("sym::d".into(), test_node(3, "d", 40));
    let _e = graph.add_node("sym::e".into(), test_node(4, "e", 50));

    graph.add_edge(a, c, EdgeKind::Call);
    graph.add_edge(b, c, EdgeKind::Call);
    graph.add_edge(c, d, EdgeKind::Call);

    let solver = CfSolver::new(Arc::new(graph), PruningParams::strict(score(0.5)));

    // CF(A) = {A, C, D} = 10 + 30 + 40 = 80
    // CF(B) = {B, C, D} = 20 + 30 + 40 = 90
    // CF({A, B}) = {A, B, C, D} = 10 + 20 + 30 + 40 = 100
    let result = solver.compute_cf(&[a, b], None);

    assert_eq!(result.reachable_set.len(), 4);
    assert!(result.reachable_set.contains(&0)); // A
    assert!(result.reachable_set.contains(&1)); // B
    assert!(result.reachable_set.contains(&2)); // C
    assert!(result.reachable_set.contains(&3)); // D
    assert!(!result.reachable_set.contains(&4)); // E (not reachable)
    assert_eq!(result.total_context_size, 100);

    // Mode-aware reasoning does not have a unique BFS depth, so the
    // compatibility layer contains the complete reached-node union.
    assert_eq!(result.reachable_nodes_by_layer.len(), 1);
    assert_eq!(result.reachable_nodes_by_layer[0].len(), 4);
    assert!(result.reachable_nodes_by_layer[0].contains(&0));
    assert!(result.reachable_nodes_by_layer[0].contains(&1));
    assert!(result.reachable_nodes_by_layer[0].contains(&2));
    assert!(result.reachable_nodes_by_layer[0].contains(&3));
}

#[test]
fn test_cached_total_matches_compute_cf_for_each_node() {
    let mut graph = ContextGraph::new();
    // A -> B -> C, and A -> D (diamond-ish), plus a cycle E <-> F.
    let a = graph.add_node("sym::a".into(), test_node(0, "a", 10));
    let b = graph.add_node("sym::b".into(), test_node(1, "b", 20));
    let c = graph.add_node("sym::c".into(), test_node(2, "c", 30));
    let d = graph.add_node("sym::d".into(), test_node(3, "d", 40));
    let e = graph.add_node("sym::e".into(), test_node(4, "e", 5));
    let f = graph.add_node("sym::f".into(), test_node(5, "f", 6));

    graph.add_edge(a, b, EdgeKind::Call);
    graph.add_edge(b, c, EdgeKind::Call);
    graph.add_edge(a, d, EdgeKind::Call);
    graph.add_edge(c, d, EdgeKind::Call);
    graph.add_edge(e, f, EdgeKind::Call);
    graph.add_edge(f, e, EdgeKind::Call);

    let graph_arc = Arc::new(graph);
    let solver = CfSolver::new(Arc::clone(&graph_arc), PruningParams::strict(score(0.5)));

    for idx in (0..graph_arc.node_count()).map(NodeIndex::new) {
        let expected = solver.compute_cf(&[idx], None).total_context_size;
        let got = solver.compute_cf_total(idx);
        assert_eq!(got, expected);
    }
}

#[test]
fn test_cached_total_respects_boundary_semantics() {
    let mut graph = ContextGraph::new();
    // A -> B -> C; B is boundary (sig complete + doc), so from A only A and B count.
    let a = graph.add_node("sym::a".into(), test_node(0, "a", 10));
    let b = graph.add_node("sym::b".into(), test_node_boundary(1, "b", 20));
    let c = graph.add_node("sym::c".into(), test_node(2, "c", 30));
    graph.add_edge(a, b, EdgeKind::Call);
    graph.add_edge(b, c, EdgeKind::Call);

    let solver = CfSolver::new(Arc::new(graph), PruningParams::academic(score(0.5)));

    let expected = solver.compute_cf(&[a], None).total_context_size;
    let got = solver.compute_cf_total(a);
    assert_eq!(got, expected);
    assert_eq!(got, 10 + 20);
}

#[test]
fn reliable_callee_charges_surface_only() {
    let mut graph = ContextGraph::new();
    let target = graph.add_node("target".into(), fragment_node(0, "target", 2, 8, false));
    let callee = graph.add_node("callee".into(), fragment_node(1, "callee", 3, 30, true));
    graph.add_edge(target, callee, EdgeKind::Call);

    let result = CfSolver::new(Arc::new(graph), PruningParams::academic(score(0.5)))
        .compute_cf(&[target], None);

    assert_eq!(result.cf_out, 13);
    assert_eq!(result.cf_in, 10);
    assert_eq!(result.cf_overlap, 10);
    assert_eq!(result.cf_total, 13);
    assert!(result.out_fragments.contains(&"callee:surface".to_string()));
    assert!(
        !result
            .out_fragments
            .contains(&"callee:implementation".to_string())
    );
}

#[test]
fn usage_mode_follows_caller_chain_without_callees() {
    let mut graph = ContextGraph::new();
    let target = graph.add_node("target".into(), fragment_node(0, "target", 1, 1, false));
    let caller = graph.add_node("caller".into(), fragment_node(1, "caller", 2, 3, false));
    let root = graph.add_node("root".into(), fragment_node(2, "root", 4, 5, false));
    let unrelated = graph.add_node(
        "unrelated".into(),
        fragment_node(3, "unrelated", 6, 7, false),
    );
    graph.add_edge(caller, target, EdgeKind::Call);
    graph.add_edge(root, caller, EdgeKind::Call);
    graph.add_edge(caller, unrelated, EdgeKind::Call);

    let result = CfSolver::new(Arc::new(graph), PruningParams::academic(score(0.5)))
        .compute_cf(&[target], None);

    assert_eq!(result.cf_in, 16);
    assert!(
        result
            .in_fragments
            .contains(&"root:implementation".to_string())
    );
    assert!(
        !result
            .in_fragments
            .contains(&"unrelated:surface".to_string())
    );
}

#[test]
fn mutable_state_writer_continues_in_behavior_mode() {
    let mut graph = ContextGraph::new();
    let reader = graph.add_node("reader".into(), fragment_node(0, "reader", 1, 1, false));
    let state = graph.add_node(
        "state".into(),
        test_var_node(1, "state", Mutability::Mutable),
    );
    let writer = graph.add_node("writer".into(), fragment_node(2, "writer", 2, 2, false));
    let dependency = graph.add_node(
        "dependency".into(),
        fragment_node(3, "dependency", 3, 5, false),
    );
    graph.add_edge(reader, state, EdgeKind::Read);
    graph.add_edge(writer, state, EdgeKind::Write);
    graph.add_edge(writer, dependency, EdgeKind::Call);

    let result = CfSolver::new(Arc::new(graph), PruningParams::academic(score(0.5)))
        .compute_cf(&[reader], None);

    assert!(
        result
            .out_fragments
            .contains(&"dependency:implementation".to_string())
    );
}

#[test]
fn mutable_state_readers_are_writer_obligations() {
    let mut graph = ContextGraph::new();
    let writer = graph.add_node("writer".into(), fragment_node(0, "writer", 2, 2, false));
    let state = graph.add_node(
        "state".into(),
        test_var_node(1, "state", Mutability::Mutable),
    );
    let reader = graph.add_node("reader".into(), fragment_node(2, "reader", 2, 3, false));
    graph.add_edge(writer, state, EdgeKind::Write);
    graph.add_edge(reader, state, EdgeKind::Read);

    let result = CfSolver::new(Arc::new(graph), PruningParams::academic(score(0.5)))
        .compute_cf(&[writer], None);

    assert!(
        result
            .in_fragments
            .contains(&"reader:implementation".to_string())
    );
    assert_eq!(result.cf_total, 10);
}

#[test]
fn child_override_always_includes_parent_surface() {
    let mut graph = ContextGraph::new();
    let parent = graph.add_node("parent".into(), fragment_node(0, "parent", 3, 30, true));
    let child = graph.add_node("child".into(), fragment_node(1, "child", 2, 2, false));
    graph.add_edge(parent, child, EdgeKind::OverriddenBy);

    let result =
        CfSolver::new(Arc::new(graph), PruningParams::academic(score(0.5))).compute_cf(&[child], None);

    assert!(result.in_fragments.contains(&"parent:surface".to_string()));
    assert!(
        !result
            .in_fragments
            .contains(&"parent:implementation".to_string())
    );
}

#[test]
fn truncation_reports_lower_bound_and_unresolved_state() {
    let mut graph = ContextGraph::new();
    let target = graph.add_node("target".into(), fragment_node(0, "target", 2, 8, false));

    let result = CfSolver::new(Arc::new(graph), PruningParams::academic(score(0.5)))
        .compute_cf(&[target], Some(5));

    assert!(result.truncated);
    assert_eq!(result.cf_total, 2);
    assert!(!result.unresolved_states.is_empty());
}

#[test]
fn truncation_budget_is_shared_across_in_and_out() {
    let mut graph = ContextGraph::new();
    let target = graph.add_node("target".into(), fragment_node(0, "target", 1, 1, false));
    let dependency = graph.add_node(
        "dependency".into(),
        fragment_node(1, "dependency", 1, 1, false),
    );
    let caller = graph.add_node("caller".into(), fragment_node(2, "caller", 1, 1, false));
    graph.add_edge(target, dependency, EdgeKind::Call);
    graph.add_edge(caller, target, EdgeKind::Call);

    let result = CfSolver::new(Arc::new(graph), PruningParams::academic(score(0.5)))
        .compute_cf(&[target], Some(5));

    assert!(result.truncated);
    assert_eq!(result.cf_total, 5);
    assert!(result.cf_total <= 5);
}
