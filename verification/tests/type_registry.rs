use context_footprint::domain::node::ContextFragment;
use context_footprint::domain::score::Score;
use context_footprint::domain::type_registry::{
    TypeDefAttribute, TypeInfo, TypeKind, TypeRegistry,
};

/// The score that a number stands for.
fn score(value: f32) -> Score {
    Score::from_bits(value.to_bits())
}

fn test_type_info() -> TypeInfo {
    TypeInfo {
        definition: TypeDefAttribute {
            type_kind: TypeKind::Class,
            is_abstract: false,
            type_param_count: 0,
            type_var_info: None,
        },
        context_size: 100,
        surface_fragment: ContextFragment::new(
            "type:test:surface".to_string(),
            None,
            None,
            100,
        ),
        doc_score: score(0.8),
        documentation: Vec::new(),
    }
}

#[test]
fn test_register_and_get() {
    let mut registry = TypeRegistry::new();
    let type_id = "MyClass#".to_string();
    let info = test_type_info();

    registry.register(type_id.clone(), info);

    let retrieved = registry.get(&type_id).unwrap();
    assert_eq!(retrieved.context_size, 100);
    assert!(!retrieved.definition.is_abstract);
}

#[test]
fn test_contains() {
    let mut registry = TypeRegistry::new();
    registry.register("TypeA#".to_string(), test_type_info());

    assert!(registry.contains("TypeA#"));
    assert!(!registry.contains("TypeB#"));
}

#[test]
fn test_get_nonexistent_returns_none() {
    let registry = TypeRegistry::new();
    assert!(registry.get("NonExistent#").is_none());
}
