use zirium::dialect::config::{
    resolve_resource, ResourceIdError,
    OperationAlternativesConfig, OperationFormatConfig, OperationGrammarConfig,
    OperationShapeConfig, RegistryConfig, RegistryLoadOptions,
};
use zirium::dialect::compose::{compose_sourced, ComposeError, ConflictKind, SourcedConfig};
use zirium::dialect::expand::ExpandedRegistry;
use zirium::dialect::loader::{GraphWalk, LoaderAction, LoaderEvent, LoaderState, WalkAction, WalkInput};
use zirium::dialect::{DeclarativeRegistryError, DialectRegistry, OperationShape};

fn strings(names: &[&str]) -> Vec<String> {
    names.iter().map(|name| name.to_string()).collect()
}

fn config() -> RegistryConfig {
    RegistryConfig {
        imports: Vec::new(),
        presets: Vec::new(),
        builtins: Vec::new(),
        operation_shapes: Vec::new(),
        operation_formats: Vec::new(),
        operation_alternatives: Vec::new(),
    }
}

fn shape(name: &str, shape: OperationShape, callee: Option<&str>) -> OperationShapeConfig {
    OperationShapeConfig {
        name: name.to_string(),
        shape,
        callee_attribute: callee.map(str::to_string),
    }
}

fn format(name: &str, description: &str, callee: Option<&str>) -> OperationFormatConfig {
    OperationFormatConfig {
        name: name.to_string(),
        format: description.to_string(),
        callee_attribute: callee.map(str::to_string),
    }
}

fn presets() -> Vec<(String, RegistryConfig)> {
    let mut calls = config();
    calls.builtins = strings(&["a.b"]);
    calls.operation_shapes = vec![shape("x.call", OperationShape::CallLike, None)];
    calls.operation_formats = vec![format("x.const", "$value attr-dict", None)];
    let mut funcs = config();
    funcs.builtins = strings(&["a.b", "c.d"]);
    funcs.operation_shapes = vec![shape("x.fn", OperationShape::FuncLike, None)];
    let mut clash = config();
    clash.operation_shapes = vec![shape("x.call", OperationShape::FuncLike, None)];
    vec![
        ("calls".to_string(), calls),
        ("funcs".to_string(), funcs),
        ("clash".to_string(), clash),
    ]
}

fn expanded(c: &RegistryConfig) -> Result<ExpandedRegistry, DeclarativeRegistryError> {
    c.expanded(&presets())
}

#[test]
fn expansion_merges_presets_in_order() {
    let mut c = config();
    c.presets = strings(&["calls", "funcs"]);
    c.builtins = strings(&["e.f"]);
    let e = expanded(&c).unwrap();
    assert_eq!(e.builtins, strings(&["a.b", "c.d", "e.f"]));
    assert_eq!(
        e.shapes,
        vec![
            ("x.call".to_string(), OperationShape::CallLike),
            ("x.fn".to_string(), OperationShape::FuncLike),
        ]
    );
    assert_eq!(e.formats, vec![("x.const".to_string(), "$value attr-dict".to_string())]);
    assert_eq!(e.call_target_attributes, vec![("x.call".to_string(), "callee".to_string())]);
}

#[test]
fn expansion_refuses_repeated_and_unknown_presets() {
    let mut c = config();
    c.presets = strings(&["calls", "calls"]);
    assert_eq!(
        expanded(&c).unwrap_err(),
        DeclarativeRegistryError::DuplicatePreset("calls".to_string())
    );
    c.presets = strings(&["nothing"]);
    assert_eq!(
        expanded(&c).unwrap_err(),
        DeclarativeRegistryError::UnknownPreset("nothing".to_string())
    );
}

#[test]
fn expansion_refuses_conflicting_preset_shapes() {
    let mut c = config();
    c.presets = strings(&["calls", "clash"]);
    assert_eq!(
        expanded(&c).unwrap_err(),
        DeclarativeRegistryError::ConflictingShape("x.call".to_string())
    );
}

#[test]
fn expansion_refuses_repeated_names() {
    let mut c = config();
    c.builtins = strings(&["a.b", "a.b"]);
    assert_eq!(
        expanded(&c).unwrap_err(),
        DeclarativeRegistryError::DuplicateOperation("a.b".to_string())
    );
    let mut c = config();
    c.operation_shapes = vec![shape("q.f", OperationShape::FuncLike, None)];
    c.operation_formats = vec![format("q.f", "attr-dict", None)];
    assert_eq!(
        expanded(&c).unwrap_err(),
        DeclarativeRegistryError::DuplicateOperation("q.f".to_string())
    );
}

#[test]
fn expansion_checks_call_target_attributes() {
    let mut c = config();
    c.operation_shapes = vec![shape("q.f", OperationShape::FuncLike, Some("target"))];
    assert_eq!(
        expanded(&c).unwrap_err(),
        DeclarativeRegistryError::InvalidCallTargetAttribute("q.f".to_string())
    );
    c.operation_shapes = vec![shape("q.c", OperationShape::CallLike, Some("1target"))];
    assert_eq!(
        expanded(&c).unwrap_err(),
        DeclarativeRegistryError::InvalidCallTargetAttribute("q.c".to_string())
    );
    c.operation_shapes = vec![shape("q.c", OperationShape::CallLike, Some("my.target"))];
    let e = expanded(&c).unwrap();
    assert_eq!(e.call_target_attributes, vec![("q.c".to_string(), "my.target".to_string())]);

    let mut c = config();
    c.operation_formats = vec![format("q.k", "$value attr-dict", Some("target"))];
    assert_eq!(
        expanded(&c).unwrap_err(),
        DeclarativeRegistryError::InvalidCallTargetAttribute("q.k".to_string())
    );
    c.operation_formats = vec![format("q.k", "$callee attr-dict", Some("target"))];
    let e = expanded(&c).unwrap();
    assert_eq!(e.call_target_attributes, vec![("q.k".to_string(), "target".to_string())]);
}

#[test]
fn expansion_refuses_conflicting_call_targets() {
    let mut c = config();
    c.presets = strings(&["calls"]);
    c.operation_shapes = vec![shape("x.call", OperationShape::CallLike, Some("other"))];
    assert_eq!(
        expanded(&c).unwrap_err(),
        DeclarativeRegistryError::ConflictingCallTargetAttribute("x.call".to_string())
    );
}

#[test]
fn expansion_checks_alternatives() {
    let one = OperationGrammarConfig { shape: Some(OperationShape::CallLike), format: None };
    let two = OperationGrammarConfig { shape: None, format: Some("$callee attr-dict".to_string()) };
    let both = OperationGrammarConfig {
        shape: Some(OperationShape::FuncLike),
        format: Some("attr-dict".to_string()),
    };
    let mut c = config();
    c.operation_alternatives = vec![OperationAlternativesConfig {
        name: "q.a".to_string(),
        alternatives: vec![one.clone()],
        callee_attribute: None,
    }];
    assert_eq!(
        expanded(&c).unwrap_err(),
        DeclarativeRegistryError::InvalidOperationAlternatives("q.a".to_string())
    );
    c.operation_alternatives[0].alternatives = vec![one.clone(), both];
    assert_eq!(
        expanded(&c).unwrap_err(),
        DeclarativeRegistryError::InvalidOperationAlternatives("q.a".to_string())
    );
    c.operation_alternatives[0].alternatives = vec![one, two];
    c.operation_alternatives[0].callee_attribute = Some("target".to_string());
    let e = expanded(&c).unwrap();
    assert_eq!(e.alternatives.len(), 1);
    assert_eq!(e.alternatives[0].1.len(), 2);
    assert_eq!(e.call_target_attributes, vec![("q.a".to_string(), "target".to_string())]);
}

#[test]
fn build_refuses_unresolved_imports() {
    let mut c = config();
    c.imports = strings(&["other.json"]);
    assert_eq!(c.build(&presets()).err(), Some(DeclarativeRegistryError::UnresolvedImports));
}

#[test]
fn build_many_shares_identical_and_refuses_differing_entries() {
    let mut first = config();
    first.operation_formats = vec![format("q.k", "$value attr-dict", None)];
    let mut second = config();
    second.operation_formats = vec![format("q.k", "$value attr-dict", None)];
    let b = RegistryConfig::build_many(&vec![first.clone(), second], &presets()).unwrap();
    assert_eq!(b.registrations.formats.len(), 1);
    let mut third = config();
    third.operation_formats = vec![format("q.k", "attr-dict", None)];
    assert_eq!(
        RegistryConfig::build_many(&vec![first, third], &presets()).err(),
        Some(DeclarativeRegistryError::ConflictingFormat("q.k".to_string()))
    );
}

#[test]
fn build_registers_builtins_and_shapes() {
    let mut c = config();
    c.builtins = strings(&["func.return", "func.func"]);
    c.operation_shapes = vec![shape("my.call", OperationShape::CallLike, None)];
    let b = c.build(&presets()).unwrap();
    assert_eq!(b.registry.operation_names(), vec!["func.func", "func.return"]);
    assert_eq!(b.registry.operation_shape("my.call"), Some(OperationShape::CallLike));
    c.builtins = strings(&["nope"]);
    assert_eq!(
        c.build(&presets()).err(),
        Some(DeclarativeRegistryError::UnknownOperation("nope".to_string()))
    );
    let mut core = config();
    core.operation_shapes = vec![shape("func.func", OperationShape::FuncLike, None)];
    assert_eq!(
        core.build(&presets()).err(),
        Some(DeclarativeRegistryError::CoreOperation("func.func".to_string()))
    );
    let mut empty = config();
    empty.operation_shapes = vec![shape("", OperationShape::FuncLike, None)];
    assert_eq!(empty.build(&presets()).err(), Some(DeclarativeRegistryError::EmptyOperation));
}

fn bundled() -> Vec<(String, RegistryConfig)> {
    DialectRegistry::preset_names()
        .into_iter()
        .map(|name| {
            let mut c = config();
            if name == "func" {
                c.builtins = strings(&["func.func", "func.return", "func.call"]);
            }
            if name == "arith" {
                c.builtins = strings(&["nope"]);
            }
            (name.to_string(), c)
        })
        .collect()
}

#[test]
fn from_name_builds_one_preset() {
    let table = bundled();
    let b = DialectRegistry::from_name("func", &table).unwrap();
    assert_eq!(b.registry.operation_names(), vec!["func.func", "func.return", "func.call"]);
    assert_eq!(b.registrations.builtins, strings(&["func.func", "func.return", "func.call"]));
    assert_eq!(
        DialectRegistry::from_name("arith", &table).err(),
        Some(DeclarativeRegistryError::UnknownOperation("nope".to_string()))
    );
    assert_eq!(
        DialectRegistry::from_name("none", &table).err(),
        Some(DeclarativeRegistryError::UnknownPreset("none".to_string()))
    );
}

fn options() -> RegistryLoadOptions {
    RegistryLoadOptions { max_depth: 2, max_files: 3, max_edges: 3, max_bytes: 100 }
}

#[test]
fn loader_walks_a_graph() {
    let mut s = LoaderState::new(options());
    assert_eq!(s.step(LoaderEvent::Enter("root".to_string(), 0)), LoaderAction::ReadFile(101));
    assert_eq!(s.step(LoaderEvent::Read("root".to_string(), 40)), LoaderAction::Continue);
    assert_eq!(s.step(LoaderEvent::Edge), LoaderAction::Continue);
    assert_eq!(
        s.step(LoaderEvent::Import("child".to_string(), "./child".to_string())),
        LoaderAction::Continue
    );
    assert_eq!(s.step(LoaderEvent::Enter("child".to_string(), 1)), LoaderAction::ReadFile(61));
    assert_eq!(s.step(LoaderEvent::Read("child".to_string(), 10)), LoaderAction::Continue);
    assert_eq!(s.step(LoaderEvent::Edge), LoaderAction::Continue);
    assert_eq!(
        s.step(LoaderEvent::Import("root".to_string(), "../root".to_string())),
        LoaderAction::Continue
    );
    assert_eq!(s.step(LoaderEvent::Enter("root".to_string(), 2)), LoaderAction::Cycle(0));
    assert_eq!(s.step(LoaderEvent::Finish), LoaderAction::Loaded);
    assert_eq!(s.completed, strings(&["child"]));
    assert_eq!(s.step(LoaderEvent::Edge), LoaderAction::Continue);
    assert_eq!(
        s.step(LoaderEvent::Import("child".to_string(), "child".to_string())),
        LoaderAction::DuplicateImport("./child".to_string())
    );
    assert_eq!(s.step(LoaderEvent::Enter("child".to_string(), 1)), LoaderAction::AlreadyLoaded);
    assert_eq!(s.files, 2);
    assert_eq!(s.bytes, 50);
    assert_eq!(s.edges, 3);
}

#[test]
fn loader_enforces_limits() {
    let mut s = LoaderState::new(options());
    assert_eq!(s.step(LoaderEvent::Enter("deep".to_string(), 3)), LoaderAction::DepthExceeded);
    assert_eq!(s.step(LoaderEvent::Read("big".to_string(), 101)), LoaderAction::TooManyBytes);
    assert_eq!(s.step(LoaderEvent::Read("a".to_string(), 100)), LoaderAction::Continue);
    assert_eq!(s.step(LoaderEvent::Enter("b".to_string(), 1)), LoaderAction::ReadFile(1));
    assert_eq!(s.step(LoaderEvent::Read("b".to_string(), 1)), LoaderAction::TooManyBytes);
    for k in 0..3 {
        assert_eq!(s.step(LoaderEvent::Edge), LoaderAction::Continue);
        assert_eq!(
            s.step(LoaderEvent::Import(format!("c{k}"), format!("c{k}"))),
            LoaderAction::Continue
        );
    }
    assert_eq!(s.step(LoaderEvent::Edge), LoaderAction::TooManyEdges);
    let mut s = LoaderState::new(RegistryLoadOptions { max_files: 1, ..options() });
    assert_eq!(s.step(LoaderEvent::Read("a".to_string(), 1)), LoaderAction::Continue);
    assert_eq!(s.step(LoaderEvent::Enter("b".to_string(), 1)), LoaderAction::TooManyFiles);
}

fn sourced(config: RegistryConfig, origin: &str) -> SourcedConfig {
    SourcedConfig { config, origin: origin.to_string(), chain: vec![origin.to_string()] }
}

#[test]
fn compose_combines_files_and_names_conflicting_ones() {
    let mut first = config();
    first.builtins = strings(&["func.func"]);
    first.operation_shapes = vec![shape("q.f", OperationShape::FuncLike, None)];
    let mut second = config();
    second.builtins = strings(&["func.func", "func.return"]);
    second.operation_shapes = vec![shape("q.f", OperationShape::FuncLike, None)];
    let b = compose_sourced(&vec![sourced(first.clone(), "one"), sourced(second, "two")], &presets())
        .unwrap();
    assert_eq!(b.registrations.builtins, strings(&["func.func", "func.return"]));
    assert_eq!(b.registrations.shapes, vec![("q.f".to_string(), OperationShape::FuncLike)]);
    assert_eq!(b.registry.operation_names(), vec!["func.func", "func.return"]);

    let mut as_builtin = config();
    as_builtin.builtins = strings(&["q.f"]);
    assert_eq!(
        compose_sourced(&vec![sourced(first.clone(), "one"), sourced(as_builtin, "two")], &presets())
            .err(),
        Some(ComposeError::Conflict(ConflictKind::Definitions, "q.f".to_string(), 0, 1))
    );

    let mut other_shape = config();
    other_shape.operation_shapes = vec![shape("q.f", OperationShape::CallLike, None)];
    let third = config();
    assert_eq!(
        compose_sourced(
            &vec![sourced(first.clone(), "one"), sourced(third, "two"), sourced(other_shape, "three")],
            &presets()
        )
        .err(),
        Some(ComposeError::Conflict(ConflictKind::Shapes, "q.f".to_string(), 0, 2))
    );

    let mut broken = config();
    broken.presets = strings(&["nothing"]);
    assert_eq!(
        compose_sourced(&vec![sourced(first, "one"), sourced(broken, "two")], &presets()).err(),
        Some(ComposeError::Expansion(1, DeclarativeRegistryError::UnknownPreset("nothing".to_string())))
    );

    let mut unknown = config();
    unknown.builtins = strings(&["nope"]);
    assert_eq!(
        compose_sourced(&vec![sourced(unknown, "one")], &presets()).err(),
        Some(ComposeError::Registration(DeclarativeRegistryError::UnknownOperation("nope".to_string())))
    );
}

#[test]
fn graph_walk_goes_depth_first_and_reads_a_shared_child_once() {
    // r imports a and b; a imports c; b imports ./c, which is c again.
    let imports = |id: &str| -> Vec<String> {
        match id {
            "r.json" => strings(&["a.json", "b.json"]),
            "a.json" => strings(&["c.json"]),
            "b.json" => strings(&["./c.json"]),
            _ => Vec::new(),
        }
    };
    let mut walk = GraphWalk::new(RegistryLoadOptions::default(), strings(&["r.json"]));
    let mut reads = Vec::new();
    let mut loaded = Vec::new();
    let mut input = WalkInput::Next;
    loop {
        match walk.step(input) {
            WalkAction::Read(id, _) => {
                reads.push(id.clone());
                input = WalkInput::Read(10, imports(&id));
            }
            WalkAction::Resolve(_, import) => {
                input = WalkInput::Resolved(import.trim_start_matches("./").to_string());
            }
            WalkAction::Loaded(id) => {
                loaded.push(id);
                input = WalkInput::Next;
            }
            WalkAction::Skipped => input = WalkInput::Next,
            WalkAction::Done => break,
            WalkAction::Stopped(action) => panic!("stopped: {action:?}"),
        }
    }
    assert_eq!(reads, strings(&["r.json", "a.json", "c.json", "b.json"]));
    assert_eq!(loaded, strings(&["c.json", "a.json", "b.json", "r.json"]));
}

#[test]
fn graph_walk_stops_on_a_cycle() {
    let mut walk = GraphWalk::new(RegistryLoadOptions::default(), strings(&["r"]));
    assert_eq!(walk.step(WalkInput::Next), WalkAction::Read("r".to_string(), 16 * 1024 * 1024 + 1));
    assert_eq!(
        walk.step(WalkInput::Read(2, strings(&["s"]))),
        WalkAction::Resolve("r".to_string(), "s".to_string())
    );
    assert_eq!(walk.step(WalkInput::Resolved("s".to_string())), WalkAction::Read("s".to_string(), 16 * 1024 * 1024 - 1));
    assert_eq!(
        walk.step(WalkInput::Read(2, strings(&["r"]))),
        WalkAction::Resolve("s".to_string(), "r".to_string())
    );
    assert_eq!(
        walk.step(WalkInput::Resolved("r".to_string())),
        WalkAction::Stopped(LoaderAction::Cycle(0))
    );
}

#[test]
fn resource_imports_resolve_under_the_parent_directory() {
    assert_eq!(resolve_resource("pkg/r.json", "./c.json").unwrap(), b"pkg/c.json".to_vec());
    assert_eq!(resolve_resource("pkg/sub/r.json", "../c.json").unwrap(), b"pkg/c.json".to_vec());
    assert_eq!(resolve_resource("r.json", "c.json").unwrap(), b"c.json".to_vec());
    assert_eq!(resolve_resource("r.json", "../c.json").unwrap_err(), ResourceIdError::EscapesPackage);
}
