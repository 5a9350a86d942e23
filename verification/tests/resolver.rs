use light_nix::ast::{
    ExplicitTypeArgument, Expression, Literal, Pattern, Source, Statement, TypedefValue, Value,
};
use light_nix::lexer::Lexer;
use light_nix::names::{
    AstId, AstKind, BuiltinType, Declaration, ModuleId, NameResolveErrorKind, Namespace, Res, TypeDefKind,
};
use light_nix::parse_error::ParseError;
use light_nix::resolver::collect_module;
use light_nix::scope::ImportEnvironment;
use light_nix::syntax::parse_source;

fn parse(source: &str) -> (Source<'_>, Vec<ParseError<'_>>) {
    let mut lexer = Lexer::new(source);
    let mut errors = Vec::new();
    let ast = parse_source(&mut lexer, &mut errors);
    (ast, errors)
}

fn literal_from_expression<'a, 'input>(expression: &'a Expression<'input>) -> &'a Literal<'input> {
    let Expression::Primary(primary) = expression else {
        panic!("expected primary expression");
    };
    let Value::Literal(literal) = &primary.value else {
        panic!("expected literal value");
    };
    &literal.literal
}

fn value_of<'a, 'input>(value: &'a Option<Box<Expression<'input>>>) -> &'a Expression<'input> {
    value.as_ref().unwrap().as_ref()
}

#[test]
fn resolves_forward_module_values_and_separate_type_namespace() {
    let source = r#"
type Config { enabled: Bool }
let Config = true
let first = later
let later: Config = false
"#;
    let (ast, parse_errors) = parse(source);
    assert!(parse_errors.is_empty(), "parse errors: {parse_errors:#?}");

    let resolution = collect_module(&ast, ModuleId(0)).resolve(&ImportEnvironment::default());
    assert!(resolution.errors().is_empty(), "{:#?}", resolution.errors());

    let Statement::LetStatement(first) = &ast.statements[2] else {
        panic!("expected first binding");
    };
    let later_reference = literal_from_expression(value_of(&first.value));
    let Statement::LetStatement(later) = &ast.statements[3] else {
        panic!("expected later binding");
    };
    let Declaration::Symbol(later_id) =
        resolution.declaration_of_literal(&later.name).expect("later declaration")
    else {
        panic!("expected symbol declaration");
    };
    assert_eq!(resolution.resolve_literal(later_reference), Some(Res::Symbol(later_id)));

    let type_reference = &later.type_info.as_ref().unwrap().name;
    let Statement::TypeDefine(config_type) = &ast.statements[0] else {
        panic!("expected Config type");
    };
    let Declaration::Type(config_type_id) =
        resolution.declaration_of_literal(&config_type.name).expect("Config declaration")
    else {
        panic!("expected type declaration");
    };
    assert_eq!(resolution.resolve_literal(type_reference), Some(Res::Type(config_type_id)));
}

#[test]
fn resolves_named_and_namespace_imports_from_collected_interface() {
    let exported_source = r#"
export type Programs { enabled: Bool }
export let helper = true
export enum Desktop { KDE }
"#;
    let (exported_ast, exported_errors) = parse(exported_source);
    assert!(exported_errors.is_empty());
    let exported = collect_module(&exported_ast, ModuleId(1));
    let interface = exported.interface().clone();

    let source = r#"
import { Programs, helper as run, Desktop } from "./module.lnix"
import * as module from "./module.lnix"
let config: Programs
let direct = run
let variant = Desktop::KDE
let namespaced = module.helper
"#;
    let (ast, parse_errors) = parse(source);
    assert!(parse_errors.is_empty(), "parse errors: {parse_errors:#?}");

    let mut imports = ImportEnvironment::default();
    imports.insert(r#""./module.lnix""#, interface.clone());
    let resolution = collect_module(&ast, ModuleId(2)).resolve(&imports);
    assert!(resolution.errors().is_empty(), "{:#?}", resolution.errors());

    let programs = interface.get("Programs").unwrap().ty.unwrap();
    let helper = interface.get("helper").unwrap().value.unwrap();

    let Statement::LetStatement(config) = &ast.statements[2] else {
        panic!("expected config");
    };
    assert_eq!(
        resolution.resolve_literal(&config.type_info.as_ref().unwrap().name),
        Some(Res::Type(programs))
    );

    let Statement::LetStatement(direct) = &ast.statements[3] else {
        panic!("expected direct import use");
    };
    assert_eq!(
        resolution.resolve_literal(literal_from_expression(value_of(&direct.value))),
        Some(Res::Symbol(helper))
    );

    let Statement::LetStatement(namespaced) = &ast.statements[5] else {
        panic!("expected namespace import use");
    };
    let Expression::Primary(primary) = value_of(&namespaced.value) else {
        panic!("expected namespace primary");
    };
    let Value::Literal(root) = &primary.value else {
        panic!("expected namespace root");
    };
    assert_eq!(resolution.resolve_literal(&root.literal), Some(Res::Module(ModuleId(1))));
    assert_eq!(resolution.resolve_literal(&primary.accesses[0].member), Some(Res::Symbol(helper)));
}

#[test]
fn isolates_blocks_and_match_arms() {
    let source = r#"
let condition = true
if condition {
    let local = condition
}
let escaped = local
let selected = match condition {
    some(value) => value
    null => value
}
"#;
    let (ast, parse_errors) = parse(source);
    assert!(parse_errors.is_empty(), "parse errors: {parse_errors:#?}");

    let resolution = collect_module(&ast, ModuleId(0)).resolve(&ImportEnvironment::default());
    let unresolved = resolution
        .errors()
        .iter()
        .filter(|error| matches!(error.kind, NameResolveErrorKind::UnresolvedName { .. }))
        .count();
    assert_eq!(unresolved, 2, "{:#?}", resolution.errors());

    let Statement::LetStatement(selected) = &ast.statements[3] else {
        panic!("expected selected");
    };
    let Expression::Match(match_expression) = value_of(&selected.value) else {
        panic!("expected match");
    };
    let Pattern::SomePattern(pattern) = &match_expression.arms[0].pattern else {
        panic!("expected some pattern");
    };
    let Pattern::Binding(binding) = pattern.pattern.as_ref() else {
        panic!("expected pattern binding");
    };
    let Declaration::Symbol(binding_id) =
        resolution.declaration_of_literal(binding).expect("pattern declaration")
    else {
        panic!("expected symbol declaration");
    };
    let first_arm_value = literal_from_expression(&match_expression.arms[0].value);
    assert_eq!(resolution.resolve_literal(first_arm_value), Some(Res::Symbol(binding_id)));
    let second_arm_value = literal_from_expression(&match_expression.arms[1].value);
    assert_eq!(resolution.resolve_literal(second_arm_value), Some(Res::Error));
}

#[test]
fn reports_duplicate_bindings_fields_and_variants_without_stopping() {
    let source = r#"
type Config {
    field: Bool,
    field: String
}
enum Desktop { KDE, KDE }
let duplicate = true
let duplicate = false
let after = true
"#;
    let (ast, parse_errors) = parse(source);
    assert!(parse_errors.is_empty(), "parse errors: {parse_errors:#?}");

    let resolution = collect_module(&ast, ModuleId(0)).resolve(&ImportEnvironment::default());
    assert!(resolution
        .errors()
        .iter()
        .any(|error| matches!(error.kind, NameResolveErrorKind::DuplicateField { .. })));
    assert!(resolution
        .errors()
        .iter()
        .any(|error| matches!(error.kind, NameResolveErrorKind::DuplicateVariant { .. })));
    assert!(resolution.errors().iter().any(|error| matches!(
        error.kind,
        NameResolveErrorKind::DuplicateBinding { namespace: Namespace::Value, .. }
    )));
    assert!(matches!(ast.statements[4], Statement::LetStatement(_)));
}

#[test]
fn unknown_import_poisoning_prevents_cascading_unresolved_errors() {
    let source = r#"
import { Missing } from "./missing.lnix"
let value = Missing
"#;
    let (ast, parse_errors) = parse(source);
    assert!(parse_errors.is_empty());

    let resolution = collect_module(&ast, ModuleId(0)).resolve(&ImportEnvironment::default());
    assert_eq!(
        resolution
            .errors()
            .iter()
            .filter(|error| matches!(error.kind, NameResolveErrorKind::UnknownModule))
            .count(),
        1
    );
    assert!(!resolution
        .errors()
        .iter()
        .any(|error| matches!(error.kind, NameResolveErrorKind::UnresolvedName { .. })));

    let Statement::LetStatement(value) = &ast.statements[1] else {
        panic!("expected value");
    };
    assert_eq!(
        resolution.resolve_literal(literal_from_expression(value_of(&value.value))),
        Some(Res::Error)
    );
}

#[test]
fn resolves_generic_interface_scopes_and_explicit_type_arguments() {
    let source = r#"
interface Comparable {}
interface TestInterface<U> {}
type Test {}

implements TestInterface<Int> for Test {}

inline function test<T, U>() -> U
where T: TestInterface<U> {
    let value: U
    return value
}

let result = test:<Test>()
"#;
    let (ast, parse_errors) = parse(source);
    assert!(parse_errors.is_empty(), "parse errors: {parse_errors:#?}");

    let resolution = collect_module(&ast, ModuleId(0)).resolve(&ImportEnvironment::default());
    assert!(resolution.errors().is_empty(), "{:#?}", resolution.errors());
    assert_eq!(
        resolution.types().iter().filter(|ty| ty.kind == TypeDefKind::Interface).count(),
        2
    );

    let Statement::FunctionDefine(function) = &ast.statements[4] else {
        panic!("expected generic function");
    };
    assert!(matches!(
        resolution.resolve_literal(&function.return_type.as_ref().unwrap().name),
        Some(Res::GenericParameter(_))
    ));

    let Statement::LetStatement(result) = &ast.statements[5] else {
        panic!("expected result");
    };
    let Expression::Primary(call) = value_of(&result.value) else {
        panic!("expected generic call");
    };
    let Value::Literal(call) = &call.value else {
        panic!("expected literal call");
    };
    let ExplicitTypeArgument::Type(test_type) = &call.type_arguments.as_ref().unwrap().arguments[0]
    else {
        panic!("expected explicit Test type");
    };
    assert!(matches!(resolution.resolve_literal(&test_type.name), Some(Res::Type(_))));
}

#[test]
fn resolves_generic_parameters_inside_type_fields_and_where_clauses() {
    let source = r#"
interface Marker {}
type Boxed<T: Marker>
where T: Marker {
    value: T
    nested: { value: Set<T> }
}
declare let boxed: Boxed<String>
"#;
    let (ast, parse_errors) = parse(source);
    assert!(parse_errors.is_empty(), "parse errors: {parse_errors:#?}");

    let resolution = collect_module(&ast, ModuleId(0)).resolve(&ImportEnvironment::default());
    assert!(resolution.errors().is_empty(), "{:#?}", resolution.errors());
    let Statement::TypeDefine(boxed) = &ast.statements[1] else {
        panic!("expected Boxed type");
    };
    let parameter = &boxed.generic_parameters.as_ref().unwrap().parameters[0];
    let Some(Declaration::GenericParameter(parameter_id)) =
        resolution.declaration_of_literal(&parameter.name)
    else {
        panic!("expected generic parameter declaration");
    };
    let TypedefValue::TypeInfo(value_type) = &boxed.body.fields[0].value else {
        panic!("expected value type");
    };
    assert_eq!(
        resolution.resolve_literal(&value_type.name),
        Some(Res::GenericParameter(parameter_id))
    );
    let nested = match &boxed.body.fields[1].value {
        TypedefValue::Block(nested) => nested,
        _ => panic!("expected nested type"),
    };
    let TypedefValue::TypeInfo(nested_value) = &nested.fields[0].value else {
        panic!("expected nested value type");
    };
    assert_eq!(
        resolution.resolve_literal(&nested_value.parameters[0].name),
        Some(Res::GenericParameter(parameter_id))
    );
}

#[test]
fn interface_exports_only_exported_module_level_declarations() {
    let source = r#"
export let shared = 1
let private = 2
export type Shared { value: Bool }
export inline function helper() -> Bool {
    return true
}
"#;
    let (ast, parse_errors) = parse(source);
    assert!(parse_errors.is_empty(), "parse errors: {parse_errors:#?}");
    let collected = collect_module(&ast, ModuleId(3));
    let interface = collected.interface();
    let shared = interface.get("shared").unwrap();
    assert!(shared.value.is_some());
    let shared_type = interface.get("Shared").unwrap();
    assert!(shared_type.ty.is_some());
    assert!(shared_type.value.is_none());
    assert!(interface.get("helper").unwrap().value.is_some());
    assert!(interface.get("private").is_none());
    assert_eq!(interface.exports().len(), 3);
}

#[test]
fn duplicate_module_bindings_are_reported_and_poisoned() {
    let source = r#"
let twice = 1
let twice = 2
let user = twice
"#;
    let (ast, parse_errors) = parse(source);
    assert!(parse_errors.is_empty(), "parse errors: {parse_errors:#?}");
    let resolution = collect_module(&ast, ModuleId(0)).resolve(&ImportEnvironment::default());
    assert_eq!(resolution.errors().len(), 1, "{:#?}", resolution.errors());
    assert_eq!(resolution.resolve_root_name(Namespace::Value, "twice"), Some(Res::Error));
    assert!(matches!(
        resolution.resolve_root_name(Namespace::Type, "Bool"),
        Some(Res::BuiltinType(_))
    ));
    assert_eq!(resolution.resolve_root_name(Namespace::Value, "missing"), None);
    let Statement::LetStatement(user) = &ast.statements[2] else {
        panic!("expected user binding");
    };
    assert_eq!(
        resolution.resolve_literal(literal_from_expression(value_of(&user.value))),
        Some(Res::Error)
    );
}

#[test]
fn unknown_exports_and_nested_imports_and_exports_are_reported() {
    let exported_source = "export let present = 1";
    let (exported_ast, _) = parse(exported_source);
    let interface = collect_module(&exported_ast, ModuleId(1)).interface().clone();

    let source = r#"
import { present, absent } from "./module.lnix"
let use_absent = absent
inline function nested() -> Int {
    import "./module.lnix"
    export let inner = present
    return inner
}
"#;
    let (ast, parse_errors) = parse(source);
    assert!(parse_errors.is_empty(), "parse errors: {parse_errors:#?}");
    let mut imports = ImportEnvironment::default();
    imports.insert("\"./module.lnix\"", interface);
    let resolution = collect_module(&ast, ModuleId(2)).resolve(&imports);
    let kinds: Vec<_> = resolution.errors().iter().map(|error| error.kind.clone()).collect();
    assert!(kinds.iter().any(|kind| matches!(kind, NameResolveErrorKind::UnknownExport { module: ModuleId(1), .. })), "{kinds:#?}");
    assert!(kinds.iter().any(|kind| matches!(kind, NameResolveErrorKind::ImportNotAtModuleScope)), "{kinds:#?}");
    assert!(kinds.iter().any(|kind| matches!(kind, NameResolveErrorKind::ExportNotAtModuleScope)), "{kinds:#?}");
    assert!(!kinds.iter().any(|kind| matches!(kind, NameResolveErrorKind::UnresolvedName { .. })), "{kinds:#?}");

    let Statement::LetStatement(use_absent) = &ast.statements[1] else {
        panic!("expected binding");
    };
    assert_eq!(
        resolution.resolve_literal(literal_from_expression(value_of(&use_absent.value))),
        Some(Res::Error)
    );
}

#[test]
fn module_members_resolve_through_the_interface() {
    let exported_source = "export enum Mode { On, Off }\nexport let mode = 1";
    let (exported_ast, _) = parse(exported_source);
    let interface = collect_module(&exported_ast, ModuleId(1)).interface().clone();
    let mode_type = interface.get("Mode").unwrap().ty.unwrap();

    let source = "import * as lib from \"./lib.lnix\"\nlet chosen = lib.Mode::On\nlet missing = lib.nothing\n";
    let (ast, parse_errors) = parse(source);
    assert!(parse_errors.is_empty(), "parse errors: {parse_errors:#?}");
    let mut imports = ImportEnvironment::default();
    imports.insert("\"./lib.lnix\"", interface);
    let resolution = collect_module(&ast, ModuleId(2)).resolve(&imports);

    let Statement::LetStatement(chosen) = &ast.statements[1] else {
        panic!("expected chosen binding");
    };
    let Expression::Primary(primary) = value_of(&chosen.value) else {
        panic!("expected primary");
    };
    assert_eq!(resolution.resolve_literal(&primary.accesses[0].member), Some(Res::Type(mode_type)));
    assert!(matches!(resolution.resolve_literal(&primary.accesses[1].member), Some(Res::Member(_))));
    assert_eq!(
        resolution
            .errors()
            .iter()
            .filter(|error| matches!(error.kind, NameResolveErrorKind::UnknownExport { .. }))
            .count(),
        1
    );
}

#[test]
fn recorded_declarations_name_the_entries_their_literals_declared() {
    let source = "type Shape { width: Int }\nenum Side { Left }\nlet area = 1\n";
    let (ast, parse_errors) = parse(source);
    assert!(parse_errors.is_empty(), "parse errors: {parse_errors:#?}");
    let resolution = collect_module(&ast, ModuleId(5)).resolve(&ImportEnvironment::default());

    let Statement::LetStatement(area) = &ast.statements[2] else {
        panic!("expected area binding");
    };
    let Some(Declaration::Symbol(symbol)) = resolution.declaration_of_literal(&area.name) else {
        panic!("expected symbol");
    };
    assert_eq!(symbol.module, ModuleId(5));
    assert_eq!(
        resolution.symbols()[symbol.index as usize].declaration,
        AstId::new(&area.name, AstKind::Literal)
    );

    let Statement::TypeDefine(shape) = &ast.statements[0] else {
        panic!("expected Shape type");
    };
    let Some(Declaration::Field(field)) = resolution.declaration_of_literal(&shape.body.fields[0].name)
    else {
        panic!("expected field");
    };
    let width = &resolution.fields()[field.index as usize];
    assert_eq!(width.declaration, AstId::new(&shape.body.fields[0].name, AstKind::Literal));
    assert_eq!(resolution.name(width.name), "width");

    let Statement::EnumDefine(side) = &ast.statements[1] else {
        panic!("expected Side enum");
    };
    let Some(Declaration::EnumVariant(variant)) = resolution.declaration_of_literal(&side.variants[0].name)
    else {
        panic!("expected variant");
    };
    assert_eq!(
        resolution.variants()[variant.index as usize].declaration,
        AstId::new(&side.variants[0].name, AstKind::Literal)
    );
}

#[test]
fn resolved_names_refer_to_existing_declarations() {
    let source = "type Shape { width: Int }\nlet area: Shape = later\nlet later = Missing\n";
    let (ast, parse_errors) = parse(source);
    assert!(parse_errors.is_empty(), "parse errors: {parse_errors:#?}");
    let resolution = collect_module(&ast, ModuleId(3)).resolve(&ImportEnvironment::default());

    let Statement::LetStatement(area) = &ast.statements[1] else {
        panic!("expected area binding");
    };
    let Some(Res::Symbol(later)) = resolution.resolve_literal(literal_from_expression(value_of(&area.value)))
    else {
        panic!("expected a symbol");
    };
    assert_eq!(later.module, ModuleId(3));
    assert!((later.index as usize) < resolution.symbols().len());

    let Some(Res::Type(shape)) = resolution.resolve_literal(&area.type_info.as_ref().unwrap().name) else {
        panic!("expected a type");
    };
    assert!((shape.index as usize) < resolution.types().len());

    let Statement::LetStatement(later_binding) = &ast.statements[2] else {
        panic!("expected later binding");
    };
    let missing = resolution.resolve_literal(literal_from_expression(value_of(&later_binding.value)));
    assert_eq!(missing, Some(Res::Error));
    assert!(!resolution.errors().is_empty());
}

#[test]
fn unknown_modules_and_exports_are_reported_where_they_are_written() {
    let exported_source = "export let present = 1";
    let (exported_ast, _) = parse(exported_source);
    let interface = collect_module(&exported_ast, ModuleId(1)).interface().clone();

    let source = "import { present, absent } from \"./known.lnix\"\nimport { other } from \"./missing.lnix\"\n";
    let (ast, parse_errors) = parse(source);
    assert!(parse_errors.is_empty(), "parse errors: {parse_errors:#?}");
    let mut imports = ImportEnvironment::default();
    imports.insert("\"./known.lnix\"", interface);
    let resolution = collect_module(&ast, ModuleId(2)).resolve(&imports);

    let absent_start = source.find("absent").unwrap();
    assert!(resolution.errors().iter().any(|error| {
        error.span == (absent_start..absent_start + "absent".len())
            && matches!(error.kind, NameResolveErrorKind::UnknownExport { module: ModuleId(1), .. })
    }), "{:#?}", resolution.errors());

    let missing_start = source.find("\"./missing.lnix\"").unwrap();
    assert!(resolution.errors().iter().any(|error| {
        error.span == (missing_start..missing_start + "\"./missing.lnix\"".len())
            && error.kind == NameResolveErrorKind::UnknownModule
    }), "{:#?}", resolution.errors());
}

#[test]
fn declaration_ids_are_dense() {
    let (ast, errors) = parse(
        "enum Color { Red, Green }\ntype Point { x: Int, y: Int }\nlet a = 1\nopaque function f(p: Int) -> Int {\n    return p\n}\n",
    );
    assert!(errors.is_empty(), "{errors:#?}");
    let resolution = collect_module(&ast, ModuleId(3)).resolve(&ImportEnvironment::default());
    for (i, symbol) in resolution.symbols().iter().enumerate() {
        assert_eq!(symbol.id.index as usize, i);
        assert_eq!(symbol.id.module, ModuleId(3));
    }
    for (i, ty) in resolution.types().iter().enumerate() {
        assert_eq!(ty.id.index as usize, i);
    }
    for (i, field) in resolution.fields().iter().enumerate() {
        assert_eq!(field.id.index as usize, i);
    }
    for (i, variant) in resolution.variants().iter().enumerate() {
        assert_eq!(variant.id.index as usize, i);
    }
    assert!(resolution.symbols().len() >= 3);
}

#[test]
fn every_builtin_type_name_is_bound_in_the_module_scope() {
    let (ast, parse_errors) = parse("let value = 1\n");
    assert!(parse_errors.is_empty(), "parse errors: {parse_errors:#?}");
    let resolution = collect_module(&ast, ModuleId(0)).resolve(&ImportEnvironment::default());
    let expected = [
        ("Bool", BuiltinType::Bool),
        ("bool", BuiltinType::Bool),
        ("Int", BuiltinType::Int),
        ("int", BuiltinType::Int),
        ("Float", BuiltinType::Float),
        ("float", BuiltinType::Float),
        ("String", BuiltinType::String),
        ("string", BuiltinType::String),
        ("List", BuiltinType::List),
        ("Set", BuiltinType::SetType),
    ];
    for (name, builtin) in expected {
        assert_eq!(resolution.resolve_root_name(Namespace::Type, name), Some(Res::BuiltinType(builtin)));
    }
}
