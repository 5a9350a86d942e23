use std::collections::{HashMap, HashSet};

use light_nix::ast::{Literal, Source, Statement};
use light_nix::builder::build_dependency_graph;
use light_nix::graph::{DependencyEdgeKind, DependencyNodeId, DependencyNodeKind, StatementId};
use light_nix::graph_order::DependencyGraphErrorKind;
use light_nix::lexer::Lexer;
use light_nix::names::{Declaration, ModuleId};
use light_nix::resolver::{collect_module, NameResolution};
use light_nix::scope::ImportEnvironment;
use light_nix::syntax::parse_source;

fn parse(source: &str) -> Source<'_> {
    let mut lexer = Lexer::new(source);
    let mut errors = Vec::new();
    let ast = parse_source(&mut lexer, &mut errors);
    assert!(errors.is_empty(), "parse errors: {errors:#?}");
    ast
}

fn symbol_of(resolution: &NameResolution, literal: &Literal<'_>) -> DependencyNodeId {
    let Some(Declaration::Symbol(symbol)) = resolution.declaration_of_literal(literal) else {
        panic!("expected symbol declaration");
    };
    DependencyNodeId::Symbol(symbol)
}

#[test]
fn builds_value_dependencies_and_evaluation_order() {
    let source = r#"
let base = 1
opaque function read() -> Int {
    return base
}
let selected = if base > 0 {
    return read()
} else {
    return base
}
assert selected > 0, "selected must be positive"
"#;
    let ast = parse(source);
    let resolution = collect_module(&ast, ModuleId(0)).resolve(&ImportEnvironment::default());
    assert!(resolution.errors().is_empty(), "{:#?}", resolution.errors());
    let graph = build_dependency_graph(&ast, &resolution);

    let Statement::LetStatement(base) = &ast.statements[0] else {
        panic!("expected base binding");
    };
    let Statement::FunctionDefine(read) = &ast.statements[1] else {
        panic!("expected read function");
    };
    let Statement::LetStatement(selected) = &ast.statements[2] else {
        panic!("expected selected binding");
    };
    let base = symbol_of(&resolution, &base.name);
    let read = symbol_of(&resolution, &read.name);
    let selected = symbol_of(&resolution, &selected.name);
    let assertion = graph
        .nodes()
        .iter()
        .find(|node| node.kind == DependencyNodeKind::Assert)
        .expect("expected assert node")
        .id;

    assert_eq!(graph.dependencies(read), vec![base]);
    assert_eq!(
        graph.dependencies(selected).into_iter().collect::<HashSet<_>>(),
        HashSet::from([base, read])
    );
    assert_eq!(graph.dependencies(assertion), vec![selected]);
    assert!(graph.cycles().is_empty());

    let positions = graph
        .evaluation_order()
        .expect("graph should be acyclic")
        .into_iter()
        .enumerate()
        .map(|(index, node)| (node, index))
        .collect::<HashMap<_, _>>();
    assert!(positions[&base] < positions[&read]);
    assert!(positions[&read] < positions[&selected]);
    assert!(positions[&selected] < positions[&assertion]);
}

#[test]
fn reports_mutual_and_self_cycles_with_reference_spans() {
    let source = r#"
let first = second
let second = first
opaque function recursive() -> Int {
    return recursive()
}
"#;
    let ast = parse(source);
    let resolution = collect_module(&ast, ModuleId(0)).resolve(&ImportEnvironment::default());
    assert!(resolution.errors().is_empty(), "{:#?}", resolution.errors());
    let graph = build_dependency_graph(&ast, &resolution);

    let cycles = graph.cycles();
    assert_eq!(cycles.len(), 2, "{cycles:#?}");
    assert!(cycles.iter().any(|cycle| cycle.nodes.len() == 2));
    assert!(cycles.iter().any(|cycle| {
        cycle.nodes.len() == 1
            && cycle
                .edges
                .iter()
                .any(|edge| edge.source == edge.target && edge.kind == DependencyEdgeKind::Call)
    }));
    assert!(graph.evaluation_order().is_err());
    assert!(graph.errors().iter().all(|error| {
        matches!(error.kind, DependencyGraphErrorKind::Cycle { .. })
            && !error.locations.is_empty()
            && error.locations.iter().all(|location| location.module == ModuleId(0))
    }));
}

#[test]
fn parameters_are_not_dependencies_but_enum_values_are() {
    let source = r#"
let representation = "desktop"
enum Desktop: String {
    KDE = representation
}
opaque function identity(value: String) -> String {
    return value
}
let desktop = Desktop::KDE
"#;
    let ast = parse(source);
    let resolution = collect_module(&ast, ModuleId(0)).resolve(&ImportEnvironment::default());
    assert!(resolution.errors().is_empty(), "{:#?}", resolution.errors());
    let graph = build_dependency_graph(&ast, &resolution);

    let Statement::LetStatement(representation) = &ast.statements[0] else {
        panic!("expected representation binding");
    };
    let Statement::EnumDefine(desktop_enum) = &ast.statements[1] else {
        panic!("expected Desktop enum");
    };
    let Statement::FunctionDefine(identity) = &ast.statements[2] else {
        panic!("expected identity function");
    };
    let Statement::LetStatement(desktop) = &ast.statements[3] else {
        panic!("expected desktop binding");
    };
    let representation = symbol_of(&resolution, &representation.name);
    let identity = symbol_of(&resolution, &identity.name);
    let desktop = symbol_of(&resolution, &desktop.name);
    let Some(Declaration::EnumVariant(variant)) =
        resolution.declaration_of_literal(&desktop_enum.variants[0].name)
    else {
        panic!("expected enum variant declaration");
    };
    let variant = DependencyNodeId::Variant(variant);

    assert!(graph.dependencies(identity).is_empty());
    assert_eq!(graph.dependencies(variant), vec![representation]);
    assert_eq!(graph.dependencies(desktop), vec![variant]);
}

#[test]
fn closure_parameters_are_local_while_captured_values_are_dependencies() {
    let source = r#"
let values = [1, 2, 3]
let threshold = 1
let filtered = values.filter(inline |value| => value > threshold)
"#;
    let ast = parse(source);
    let resolution = collect_module(&ast, ModuleId(0)).resolve(&ImportEnvironment::default());
    assert!(resolution.errors().is_empty(), "{:#?}", resolution.errors());
    let graph = build_dependency_graph(&ast, &resolution);

    let Statement::LetStatement(values) = &ast.statements[0] else {
        panic!("expected values binding");
    };
    let Statement::LetStatement(threshold) = &ast.statements[1] else {
        panic!("expected threshold binding");
    };
    let Statement::LetStatement(filtered) = &ast.statements[2] else {
        panic!("expected filtered binding");
    };
    let values = symbol_of(&resolution, &values.name);
    let threshold = symbol_of(&resolution, &threshold.name);
    let filtered = symbol_of(&resolution, &filtered.name);

    assert_eq!(
        graph.dependencies(filtered).into_iter().collect::<HashSet<_>>(),
        HashSet::from([values, threshold])
    );
}

#[test]
fn module_graphs_merge_external_imported_symbols() {
    let source_a = "export let base = 1";
    let ast_a = parse(source_a);
    let collected_a = collect_module(&ast_a, ModuleId(1));
    let interface_a = collected_a.interface().clone();
    let resolution_a = collected_a.resolve(&ImportEnvironment::default());

    let source_b = r#"
import * as common from "./a.lnix"
let derived = common.base
"#;
    let ast_b = parse(source_b);
    let mut imports = ImportEnvironment::default();
    imports.insert("\"./a.lnix\"", interface_a);
    let resolution_b = collect_module(&ast_b, ModuleId(2)).resolve(&imports);
    assert!(resolution_b.errors().is_empty(), "{:#?}", resolution_b.errors());

    let Statement::LetStatement(base) = &ast_a.statements[0] else {
        panic!("expected base binding");
    };
    let Statement::LetStatement(derived) = &ast_b.statements[1] else {
        panic!("expected derived binding");
    };
    let base = symbol_of(&resolution_a, &base.name);
    let derived = symbol_of(&resolution_b, &derived.name);
    let graph_a = build_dependency_graph(&ast_a, &resolution_a);
    let mut graph = build_dependency_graph(&ast_b, &resolution_b);

    assert_eq!(graph.node(base).unwrap().kind, DependencyNodeKind::External);
    graph.extend(&graph_a);
    assert_eq!(graph.node(base).unwrap().kind, DependencyNodeKind::Let);
    assert_eq!(graph.dependencies(derived), vec![base]);
    let order = graph.evaluation_order().expect("merged graph is acyclic");
    let base_position = order.iter().position(|node| *node == base).unwrap();
    let derived_position = order.iter().position(|node| *node == derived).unwrap();
    assert!(base_position < derived_position);
}

#[test]
fn detects_cycles_across_modules() {
    let source_a = r#"
import { b } from "./b.lnix"
export let a = b
"#;
    let source_b = r#"
import { a } from "./a.lnix"
export let b = a
"#;
    let ast_a = parse(source_a);
    let ast_b = parse(source_b);
    let collected_a = collect_module(&ast_a, ModuleId(1));
    let collected_b = collect_module(&ast_b, ModuleId(2));
    let mut imports = ImportEnvironment::default();
    imports.insert("\"./a.lnix\"", collected_a.interface().clone());
    imports.insert("\"./b.lnix\"", collected_b.interface().clone());
    let resolution_a = collected_a.resolve(&imports);
    let resolution_b = collected_b.resolve(&imports);
    assert!(resolution_a.errors().is_empty(), "{:#?}", resolution_a.errors());
    assert!(resolution_b.errors().is_empty(), "{:#?}", resolution_b.errors());

    let mut graph = build_dependency_graph(&ast_a, &resolution_a);
    graph.extend(&build_dependency_graph(&ast_b, &resolution_b));
    let cycles = graph.cycles();
    assert_eq!(cycles.len(), 1, "{cycles:#?}");
    assert_eq!(cycles[0].nodes.len(), 2);
    assert_eq!(
        graph.errors()[0].locations.iter().map(|location| location.module).collect::<HashSet<_>>(),
        HashSet::from([ModuleId(1), ModuleId(2)])
    );
}

#[test]
fn components_group_mutual_dependencies_and_come_before_their_dependents() {
    let source = r#"
let top = first
let first = second
let second = first
let alone = 1
"#;
    let ast = parse(source);
    let resolution = collect_module(&ast, ModuleId(0)).resolve(&ImportEnvironment::default());
    assert!(resolution.errors().is_empty(), "{:#?}", resolution.errors());
    let graph = build_dependency_graph(&ast, &resolution);
    let name = |index: usize| {
        let Statement::LetStatement(binding) = &ast.statements[index] else {
            panic!("expected binding");
        };
        symbol_of(&resolution, &binding.name)
    };
    let (top, first, second, alone) = (name(0), name(1), name(2), name(3));

    let components = graph.strongly_connected_components();
    let position = |id: DependencyNodeId| {
        components.iter().position(|component| component.contains(&id)).expect("every node is in a component")
    };
    assert_eq!(position(first), position(second));
    assert_ne!(position(top), position(first));
    assert!(position(first) < position(top));
    assert_eq!(components[position(alone)], vec![alone]);
    assert_eq!(components[position(top)], vec![top]);

    let cycles = graph.cycles();
    assert_eq!(cycles.len(), 1);
    let mut expected = vec![first, second];
    expected.sort();
    assert_eq!(cycles[0].nodes, expected);
}

#[test]
fn every_module_level_declaration_and_statement_is_a_defined_node() {
    let source = r#"
enum Mode { Fast, Slow }
let speed = 1
opaque function twice(value: Int) -> Int {
    return value
}
assert speed == 1, "speed is one"
throw "stop"
"#;
    let ast = parse(source);
    let resolution = collect_module(&ast, ModuleId(4)).resolve(&ImportEnvironment::default());
    assert!(resolution.errors().is_empty(), "{:#?}", resolution.errors());
    let graph = build_dependency_graph(&ast, &resolution);

    let Statement::LetStatement(speed) = &ast.statements[1] else {
        panic!("expected binding");
    };
    let speed_node = graph.node(symbol_of(&resolution, &speed.name)).expect("binding node");
    assert_eq!(speed_node.kind, DependencyNodeKind::Let);

    let Statement::FunctionDefine(twice) = &ast.statements[2] else {
        panic!("expected function");
    };
    let twice_node = graph.node(symbol_of(&resolution, &twice.name)).expect("function node");
    assert_eq!(twice_node.kind, DependencyNodeKind::Function);

    let Statement::EnumDefine(mode) = &ast.statements[0] else {
        panic!("expected enum");
    };
    for variant in &mode.variants {
        let Some(Declaration::EnumVariant(id)) = resolution.declaration_of_literal(&variant.name) else {
            panic!("expected variant declaration");
        };
        let node = graph.node(DependencyNodeId::Variant(id)).expect("variant node");
        assert_eq!(node.kind, DependencyNodeKind::EnumVariant);
    }

    for (number, kind) in [(0, DependencyNodeKind::Assert), (1, DependencyNodeKind::Expression)] {
        let id = DependencyNodeId::Statement(StatementId { module: ModuleId(4), index: number });
        assert_eq!(graph.node(id).expect("statement node").kind, kind);
    }
}

#[test]
fn evaluation_order_reports_the_graphs_cycles() {
    let source = r#"
let first = second
let second = first
let third = third
let fine = 1
"#;
    let ast = parse(source);
    let resolution = collect_module(&ast, ModuleId(0)).resolve(&ImportEnvironment::default());
    let graph = build_dependency_graph(&ast, &resolution);
    let error = graph.evaluation_order().unwrap_err();
    assert_eq!(error.cycles, graph.cycles());
    assert_eq!(error.cycles.len(), 2);
}

#[test]
fn dependencies_and_dependents_mirror_each_other() {
    let source = r#"
let base = 1
let left = base
let right = base + left
"#;
    let ast = parse(source);
    let resolution = collect_module(&ast, ModuleId(0)).resolve(&ImportEnvironment::default());
    let graph = build_dependency_graph(&ast, &resolution);
    let ids: Vec<DependencyNodeId> = graph.nodes().iter().map(|node| node.id).collect();
    for &a in &ids {
        for &b in &ids {
            assert_eq!(graph.dependencies(a).contains(&b), graph.dependents(b).contains(&a));
        }
    }
    let Statement::LetStatement(right) = &ast.statements[2] else { panic!("expected a binding") };
    let Statement::LetStatement(base) = &ast.statements[0] else { panic!("expected a binding") };
    let right = symbol_of(&resolution, &right.name);
    let base = symbol_of(&resolution, &base.name);
    assert!(graph.dependents(base).contains(&right));
}

#[test]
fn extending_twice_by_the_same_graph_changes_nothing() {
    let ast_a = parse("export let base = 1\nlet other = base");
    let collected_a = collect_module(&ast_a, ModuleId(1));
    let interface_a = collected_a.interface().clone();
    let resolution_a = collected_a.resolve(&ImportEnvironment::default());
    let source_b = r#"
import * as common from "./a.lnix"
let derived = common.base
"#;
    let ast_b = parse(source_b);
    let mut imports = ImportEnvironment::default();
    imports.insert("\"./a.lnix\"", interface_a);
    let resolution_b = collect_module(&ast_b, ModuleId(2)).resolve(&imports);
    let graph_a = build_dependency_graph(&ast_a, &resolution_a);
    let mut graph = build_dependency_graph(&ast_b, &resolution_b);

    graph.extend(&graph_a);
    let nodes_once = format!("{:?}", graph.nodes());
    let edges_once = format!("{:?}", graph.edges());
    graph.extend(&graph_a);
    assert_eq!(format!("{:?}", graph.nodes()), nodes_once);
    assert_eq!(format!("{:?}", graph.edges()), edges_once);
}
