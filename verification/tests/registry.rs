use zirium::dialect::config::{normalize_resource_id, valid_attribute_name, ResourceIdError};
use zirium::dialect::{
    AssemblyProgram, DeclarativeRegistryError, DialectRegistry, OperationShape, RegionKind,
    ResultCount, OperandCount,
};

#[test]
fn proving_catalog_is_consistent() {
    let registry = DialectRegistry::proving();
    let names = registry.operation_names();
    assert_eq!(
        names,
        vec![
            "builtin.module",
            "func.func",
            "func.return",
            "func.call",
            "arith.constant",
            "arith.addi",
            "cf.br",
            "cf.cond_br",
        ]
    );
    for name in names {
        assert!(registry.operation(name).unwrap().is_consistent());
    }
    assert!(registry.operation("nope").is_none());
}

#[test]
fn regions_and_symbols_default_for_unknown_operations() {
    let registry = DialectRegistry::core_registry();
    let region = registry.region("func.func", 0);
    assert_eq!(region.kind, RegionKind::Ssacfg);
    assert!(region.isolated_from_above);
    let fallback = registry.region("func.func", 1);
    assert!(!fallback.isolated_from_above);
    assert!(registry.symbols("builtin.module").symbol_table);
    assert!(!registry.symbols("unknown").defines_symbol);
}

#[test]
fn module_alias_follows_the_registry() {
    let core = DialectRegistry::core_registry();
    assert_eq!(core.custom_operation("module").unwrap().name, "builtin.module");
    let proving = DialectRegistry::proving();
    assert!(proving.custom_operation("module").is_none());
    let shaped = DialectRegistry::with_operation_shapes(&[("my.func", OperationShape::FuncLike)]).unwrap();
    assert!(shaped.custom_operation("module").is_some());
    assert_eq!(shaped.operation_shape("my.func"), Some(OperationShape::FuncLike));
    assert_eq!(shaped.operation_shape("other"), None);
}

#[test]
fn shapes_are_checked() {
    assert_eq!(
        DialectRegistry::with_operation_shapes(&[("", OperationShape::CallLike)]).err(),
        Some(DeclarativeRegistryError::EmptyOperation)
    );
    assert_eq!(
        DialectRegistry::with_operation_shapes(&[("module", OperationShape::CallLike)]).err(),
        Some(DeclarativeRegistryError::CoreOperation("module".to_owned()))
    );
    assert_eq!(
        DialectRegistry::with_operation_shapes(&[
            ("a.b", OperationShape::CallLike),
            ("a.b", OperationShape::FuncLike)
        ])
        .err(),
        Some(DeclarativeRegistryError::DuplicateOperation("a.b".to_owned()))
    );
}

#[test]
fn declarative_selection_follows_catalog_order() {
    let registry = DialectRegistry::declarative(&["cf.br", "builtin.module"]).unwrap();
    assert_eq!(registry.operation_names(), vec!["builtin.module", "cf.br"]);
    assert_eq!(
        DialectRegistry::declarative(&["cf.br", "cf.br"]).err(),
        Some(DeclarativeRegistryError::DuplicateOperation("cf.br".to_owned()))
    );
    assert_eq!(
        DialectRegistry::declarative(&["x.y"]).err(),
        Some(DeclarativeRegistryError::UnknownOperation("x.y".to_owned()))
    );
    assert!(DialectRegistry::empty().operation_names().is_empty());
}

#[test]
fn content_identity_is_fnv_of_the_contents() {
    // FNV-1a offset basis when nothing is registered.
    assert_eq!(DialectRegistry::empty().content_identity(), 0xcbf29ce484222325);
    let a = DialectRegistry::declarative(&["cf.br"]).unwrap().content_identity();
    let b = DialectRegistry::declarative(&["cf.br"]).unwrap().content_identity();
    let c = DialectRegistry::declarative(&["func.call"]).unwrap().content_identity();
    assert_eq!(a, b);
    assert_ne!(a, c);
}

#[test]
fn programs_name_their_operations() {
    assert_eq!(AssemblyProgram::TypedSuccessor.operation_name(), "cf.br");
    assert_eq!(AssemblyProgram::Call.inherent_attribute(), Some("callee"));
    assert_eq!(AssemblyProgram::ConditionalBranch.inherent_attribute(), None);
    assert!(ResultCount::Variadic.accepts(3));
    assert!(!ResultCount::Exact(1).accepts(2));
    assert!(OperandCount::Exact(2).accepts(2));
}

#[test]
fn attribute_names_and_resource_ids() {
    assert!(valid_attribute_name("callee"));
    assert!(valid_attribute_name("a._b.c9"));
    assert!(!valid_attribute_name(""));
    assert!(!valid_attribute_name("a..b"));
    assert!(!valid_attribute_name("a."));
    assert!(!valid_attribute_name("9a"));
    assert_eq!(normalize_resource_id("a/./b//c/../d.json").unwrap(), b"a/b/d.json");
    assert_eq!(normalize_resource_id("/abs").unwrap_err(), ResourceIdError::NotRelative);
    assert_eq!(normalize_resource_id("").unwrap_err(), ResourceIdError::NotRelative);
    assert_eq!(normalize_resource_id("a/../..").unwrap_err(), ResourceIdError::EscapesPackage);
    assert_eq!(normalize_resource_id("./.").unwrap_err(), ResourceIdError::NamesNoFile);
    assert_eq!(DialectRegistry::preset_names().len(), 48);
    assert_eq!(DialectRegistry::preset_names()[0], "stablehlo");
}
