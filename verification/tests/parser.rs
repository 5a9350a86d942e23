use light_nix::ast::{
    AccessOperator, BinaryOperator, ExplicitTypeArgument, Expression, ImportKind,
    MutationPolicyKind, Pattern, Source, Statement, TypedefValue, Value,
};
use light_nix::lexer::Lexer;
use light_nix::parse_error::{Expected, ParseError, ParseErrorKind, Scope};
use light_nix::syntax::parse_source;

fn parse(source: &str) -> (Source<'_>, Vec<ParseError<'_>>) {
    let mut lexer = Lexer::new(source);
    let mut errors = Vec::new();
    let ast = parse_source(&mut lexer, &mut errors);
    (ast, errors)
}

fn expression<'a, 'input>(value: &'a Option<Box<Expression<'input>>>) -> &'a Expression<'input> {
    value.as_ref().unwrap().as_ref()
}

#[test]
fn parses_the_complete_grammar() {
    let source = r#"
import "./common.lnix"

enum Profile {
    Desktop,
    Laptop
}

type Config {
    profile: Profile,
    users: List<String>,
    nested: {
        enabled: Bool
    }
}

use [
    nixpkgs,
    home
]

let tunable profile = Profile::Desktop
programs.shojiwm.enable = true
if profile == Profile::Desktop {
    programs.firefox.enable = true
} else {
    programs.firefox.enable = false
}

inline function calculate(left: Number, right: Number) -> Number {
    let result: Number = left + right * 2
    let difference = left-right
    let called = math::sum([left, right], - right)
    return called
}
"#;
    let (ast, errors) = parse(source);

    assert!(errors.is_empty(), "parse errors: {errors:#?}");
    assert_eq!(ast.statements.len(), 8);

    let Statement::TypeDefine(ty) = &ast.statements[2] else {
        panic!("expected type definition");
    };
    assert_eq!(ty.body.fields.len(), 3);
    assert!(matches!(ty.body.fields[2].value, TypedefValue::Block(_)));

    let Statement::FunctionDefine(function) = &ast.statements[7] else {
        panic!("expected function definition");
    };
    assert_eq!(function.return_type.as_ref().unwrap().name.value, "Number");
    let Statement::LetStatement(result) = &function.body.statements.statements[0] else {
        panic!("expected let statement");
    };
    assert_eq!(result.type_info.as_ref().unwrap().name.value, "Number");
    let Expression::Binary(add) = expression(&result.value) else {
        panic!("expected addition");
    };
    assert_eq!(add.operator.value, BinaryOperator::Add);
    let Expression::Binary(multiply) = add.right.as_ref() else {
        panic!("expected multiplication on the right");
    };
    assert_eq!(multiply.operator.value, BinaryOperator::Multiply);

    let Statement::LetStatement(difference) = &function.body.statements.statements[1] else {
        panic!("expected difference");
    };
    let Expression::Binary(subtract) = expression(&difference.value) else {
        panic!("expected subtraction");
    };
    assert_eq!(subtract.operator.value, BinaryOperator::Subtract);

    let Statement::LetStatement(called) = &function.body.statements.statements[2] else {
        panic!("expected function call");
    };
    let Expression::Primary(primary) = expression(&called.value) else {
        panic!("expected primary expression");
    };
    let call = primary.accesses[0].call.as_ref().unwrap();
    assert_eq!(call.arguments.len(), 2);
    assert!(matches!(call.arguments[1], Expression::Unary(_)));

    let Statement::Expression(last) = &function.body.statements.statements[3] else {
        panic!("expected return statement");
    };
    assert!(matches!(last.as_ref(), Expression::Return(_)));
}

#[test]
fn parses_interfaces_generic_implements_where_clauses_and_type_arguments() {
    let source = r#"
export interface Container<T: Comparable> where This: Sized {
    inline function contains<U>(this, value: T) -> Bool
    where U: TestInterface<T> {
        return true
    }
}

implements<T> Container<T> for Set<T>
where T: Comparable {
    opaque function contains(this, value: T) -> Bool {
        return true
    }
}

inline function test<T, U>() -> U
where T: TestInterface<U> {
    return fallback
}

let value = test:<Test, _>()
let mapped = values.map:<String>(convert:<String>)
"#;
    let (ast, errors) = parse(source);

    assert!(errors.is_empty(), "parse errors: {errors:#?}");
    assert_eq!(ast.statements.len(), 5);

    let Statement::InterfaceDefine(interface) = &ast.statements[0] else {
        panic!("expected interface definition");
    };
    assert!(interface.exported);
    assert_eq!(interface.name.value, "Container");
    let generic_parameters = interface.generic_parameters.as_ref().unwrap();
    assert_eq!(generic_parameters.parameters.len(), 1);
    assert_eq!(generic_parameters.parameters[0].name.value, "T");
    assert_eq!(generic_parameters.parameters[0].bounds[0].name.value, "Comparable");
    assert_eq!(interface.where_clause.as_ref().unwrap().predicates[0].ty.name.value, "This");
    assert_eq!(interface.methods.len(), 1);
    let method = &interface.methods[0];
    assert_eq!(method.arguments.receiver.as_ref().unwrap().value, "this");
    assert_eq!(method.generic_parameters.as_ref().unwrap().parameters[0].name.value, "U");
    assert_eq!(method.where_clause.as_ref().unwrap().predicates.len(), 1);

    let Statement::ImplementsDefine(implements) = &ast.statements[1] else {
        panic!("expected implements definition");
    };
    assert_eq!(implements.interface.name.value, "Container");
    assert_eq!(implements.interface.parameters[0].name.value, "T");
    assert_eq!(implements.target.name.value, "Set");
    assert_eq!(implements.target.parameters[0].name.value, "T");
    assert_eq!(implements.methods.len(), 1);

    let Statement::FunctionDefine(function) = &ast.statements[2] else {
        panic!("expected generic function");
    };
    assert_eq!(function.generic_parameters.as_ref().unwrap().parameters.len(), 2);
    assert_eq!(function.return_type.as_ref().unwrap().name.value, "U");
    assert_eq!(function.where_clause.as_ref().unwrap().predicates.len(), 1);

    let Statement::LetStatement(value) = &ast.statements[3] else {
        panic!("expected explicit generic call");
    };
    let Expression::Primary(value) = expression(&value.value) else {
        panic!("expected primary call");
    };
    let Value::Literal(value) = &value.value else {
        panic!("expected literal callee");
    };
    let type_arguments = value.type_arguments.as_ref().unwrap();
    assert_eq!(type_arguments.arguments.len(), 2);
    assert!(matches!(type_arguments.arguments[0], ExplicitTypeArgument::Type(_)));
    assert!(matches!(type_arguments.arguments[1], ExplicitTypeArgument::Infer(_)));

    let Statement::LetStatement(mapped) = &ast.statements[4] else {
        panic!("expected generic method call");
    };
    let Expression::Primary(mapped) = expression(&mapped.value) else {
        panic!("expected method primary");
    };
    assert_eq!(mapped.accesses[0].member.value, "map");
    assert_eq!(mapped.accesses[0].type_arguments.as_ref().unwrap().arguments.len(), 1);
    let call = mapped.accesses[0].call.as_ref().unwrap();
    let Expression::Primary(converter) = &call.arguments[0] else {
        panic!("expected generic function value");
    };
    let Value::Literal(converter) = &converter.value else {
        panic!("expected converter literal");
    };
    assert!(converter.call.is_none());
    assert_eq!(converter.type_arguments.as_ref().unwrap().arguments.len(), 1);
}

#[test]
fn parses_multiple_nested_type_parameters() {
    let source = "let value: Result<Map<String, List<Int?>>, Error?>?";
    let (ast, errors) = parse(source);

    assert!(errors.is_empty(), "parse errors: {errors:#?}");
    let Statement::LetStatement(value) = &ast.statements[0] else {
        panic!("expected value binding");
    };
    let result = value.type_info.as_ref().unwrap();
    assert!(result.optional);
    assert_eq!(result.parameters.len(), 2);
    let map = &result.parameters[0];
    assert_eq!(map.name.value, "Map");
    assert_eq!(map.parameters.len(), 2);
    assert_eq!(map.parameters[0].name.value, "String");
    assert!(map.parameters[1].parameters[0].optional);
    assert!(result.parameters[1].optional);
}

#[test]
fn generic_syntax_errors_recover_to_following_statements() {
    let source = r#"
interface Broken<T: Comparable +> {}
let broken = test:<>();
let recovered = true
"#;
    let (ast, errors) = parse(source);

    assert!(errors.iter().any(|error| matches!(
        error.kind,
        ParseErrorKind::InvalidGenericParameter | ParseErrorKind::InvalidTypeArgument
    )));
    assert_eq!(ast.statements.len(), 3, "parse errors: {errors:#?}");
    assert!(matches!(ast.statements[2], Statement::LetStatement(_)));
}

#[test]
fn missing_generic_function_body_preserves_the_following_statement() {
    let source = r#"
inline function broken<T>() -> T
where T: Comparable
let recovered = true
"#;
    let (ast, errors) = parse(source);

    assert!(errors.iter().any(|error| {
        error.kind == ParseErrorKind::InvalidFunctionDefine && error.expected == Expected::Block
    }));
    assert_eq!(ast.statements.len(), 1, "parse errors: {errors:#?}");
    assert!(matches!(ast.statements[0], Statement::LetStatement(_)));
}

#[test]
fn recovers_inside_a_statement_and_parses_following_statements() {
    let source = r#"
enum Profile { Desktop, =, Laptop }
let recovered = true
"#;
    let (ast, errors) = parse(source);

    assert!(!errors.is_empty(), "expected a recoverable error");
    assert_eq!(ast.statements.len(), 2);

    let Statement::EnumDefine(profile) = &ast.statements[0] else {
        panic!("expected enum");
    };
    assert!(profile.representation_type.is_none());
    assert_eq!(profile.variants.len(), 2);
    assert_eq!(profile.variants[0].name.value, "Desktop");
    assert!(profile.variants[0].value.is_none());
    assert_eq!(profile.variants[1].name.value, "Laptop");
    assert!(profile.variants[1].value.is_none());
    assert!(matches!(ast.statements[1], Statement::LetStatement(_)));
}

#[test]
fn parses_enum_with_a_representation_type_and_values() {
    let source = r#"
enum Desktop: string {
    KDE = "kde plasma"
    GNOME = "gnome"
}
"#;
    let (ast, errors) = parse(source);

    assert!(errors.is_empty(), "parse errors: {errors:#?}");
    assert_eq!(ast.statements.len(), 1);

    let Statement::EnumDefine(desktop) = &ast.statements[0] else {
        panic!("expected represented enum");
    };
    assert_eq!(desktop.representation_type.as_ref().unwrap().name.value, "string");

    let [kde, gnome] = desktop.variants.as_slice() else {
        panic!("expected two represented variants");
    };
    assert_eq!(kde.name.value, "KDE");
    let Expression::Primary(kde_value) = expression(&kde.value) else {
        panic!("expected KDE primary value");
    };
    let Value::String(kde_value) = &kde_value.value else {
        panic!("expected KDE string value");
    };
    assert_eq!(kde_value.value, "\"kde plasma\"");

    assert_eq!(gnome.name.value, "GNOME");
    let Expression::Primary(gnome_value) = expression(&gnome.value) else {
        panic!("expected GNOME primary value");
    };
    let Value::String(gnome_value) = &gnome_value.value else {
        panic!("expected GNOME string value");
    };
    assert_eq!(gnome_value.value, "\"gnome\"");
}

#[test]
fn parses_optional_types_safe_access_elvis_some_and_match() {
    let source = r#"
let parsed: Desktop? = Desktop::from_repr(input)
let name: string = parsed?.profile?.name ?: "unknown"
let wrapped: List<string?>? = some([])
let selected: string = match parsed {
    some(Desktop::KDE) => "kde",
    some(value) => value.to_repr()
    null => "none"
}
"#;
    let (ast, errors) = parse(source);

    assert!(errors.is_empty(), "parse errors: {errors:#?}");
    assert_eq!(ast.statements.len(), 4);

    let Statement::LetStatement(parsed) = &ast.statements[0] else {
        panic!("expected parsed binding");
    };
    assert!(parsed.type_info.as_ref().unwrap().optional);
    let Expression::Primary(from_repr) = expression(&parsed.value) else {
        panic!("expected from_repr call");
    };
    assert_eq!(from_repr.accesses.len(), 1);
    assert_eq!(from_repr.accesses[0].operator.value, AccessOperator::DoubleColon);
    assert_eq!(from_repr.accesses[0].member.value, "from_repr");

    let Statement::LetStatement(name) = &ast.statements[1] else {
        panic!("expected name binding");
    };
    assert!(!name.type_info.as_ref().unwrap().optional);
    let Expression::Elvis(name) = expression(&name.value) else {
        panic!("expected Elvis expression");
    };
    let Expression::Primary(safe_chain) = name.optional.as_ref() else {
        panic!("expected safe access chain");
    };
    assert_eq!(safe_chain.accesses.len(), 2);
    assert!(safe_chain
        .accesses
        .iter()
        .all(|access| access.operator.value == AccessOperator::SafeDot));
    let Expression::Primary(fallback) = name.fallback.as_ref() else {
        panic!("expected string fallback");
    };
    assert!(matches!(fallback.value, Value::String(_)));

    let Statement::LetStatement(wrapped) = &ast.statements[2] else {
        panic!("expected wrapped binding");
    };
    let wrapped_type = wrapped.type_info.as_ref().unwrap();
    assert!(wrapped_type.optional);
    assert!(wrapped_type.parameters[0].optional);
    let Expression::Primary(wrapped) = expression(&wrapped.value) else {
        panic!("expected some value");
    };
    let Value::SomeValue(wrapped) = &wrapped.value else {
        panic!("expected some constructor");
    };
    assert!(wrapped.value.is_some());

    let Statement::LetStatement(selected) = &ast.statements[3] else {
        panic!("expected selected binding");
    };
    let Expression::Match(selected) = expression(&selected.value) else {
        panic!("expected match expression");
    };
    let [kde, value, null] = selected.arms.as_slice() else {
        panic!("expected three match arms");
    };
    let Pattern::SomePattern(kde) = &kde.pattern else {
        panic!("expected some enum pattern");
    };
    let Pattern::EnumVariant(kde) = kde.pattern.as_ref() else {
        panic!("expected KDE enum pattern");
    };
    assert_eq!(kde.enum_name.value, "Desktop");
    assert_eq!(kde.variant.value, "KDE");

    let Pattern::SomePattern(value) = &value.pattern else {
        panic!("expected some binding pattern");
    };
    let Pattern::Binding(value) = value.pattern.as_ref() else {
        panic!("expected value binding");
    };
    assert_eq!(value.value, "value");
    assert!(matches!(null.pattern, Pattern::Null(_)));
}

#[test]
fn elvis_operator_is_right_associative() {
    let source = "let value = first ?: second ?: third";
    let (ast, errors) = parse(source);

    assert!(errors.is_empty(), "parse errors: {errors:#?}");
    let Statement::LetStatement(value) = &ast.statements[0] else {
        panic!("expected value binding");
    };
    let Expression::Elvis(value) = expression(&value.value) else {
        panic!("expected outer Elvis expression");
    };
    assert!(matches!(value.fallback.as_ref(), Expression::Elvis(_)));
}

#[test]
fn optional_and_match_errors_recover_to_following_constructs() {
    let source = r#"
let broken: string?? = null
let selected = match broken {
    some(value) value
    null => "none"
}
let recovered = true
"#;
    let (ast, errors) = parse(source);

    assert_eq!(errors.len(), 2, "parse errors: {errors:#?}");
    assert!(errors.iter().any(|error| error.kind == ParseErrorKind::InvalidTypeInfo));
    assert!(errors.iter().any(|error| error.kind == ParseErrorKind::InvalidMatchArm));
    assert_eq!(ast.statements.len(), 3);

    let Statement::LetStatement(selected) = &ast.statements[1] else {
        panic!("expected recovered match binding");
    };
    let Expression::Match(selected) = expression(&selected.value) else {
        panic!("expected recovered match expression");
    };
    assert_eq!(selected.arms.len(), 1);
    assert!(matches!(selected.arms[0].pattern, Pattern::Null(_)));
    assert!(matches!(ast.statements[2], Statement::LetStatement(_)));
}

#[test]
fn represented_enum_recovers_from_a_missing_variant_value_separator() {
    let source = r#"
enum Desktop: string {
    KDE "kde plasma"
    GNOME = "gnome"
}
let recovered = true
"#;
    let (ast, errors) = parse(source);

    assert_eq!(errors.len(), 1, "parse errors: {errors:#?}");
    assert_eq!(errors[0].kind, ParseErrorKind::InvalidEnumVariant);
    assert_eq!(ast.statements.len(), 2);

    let Statement::EnumDefine(desktop) = &ast.statements[0] else {
        panic!("expected recovered enum");
    };
    assert_eq!(desktop.variants.len(), 2);
    assert!(desktop.variants[0].value.is_none());
    assert!(desktop.variants[1].value.is_some());
    assert!(matches!(ast.statements[1], Statement::LetStatement(_)));
}

#[test]
fn inputs_and_host_can_be_used_as_identifiers() {
    let source = r#"
inputs = true
host = false
"#;
    let (ast, errors) = parse(source);

    assert!(errors.is_empty(), "parse errors: {errors:#?}");
    assert_eq!(ast.statements.len(), 2);
    assert!(ast
        .statements
        .iter()
        .all(|statement| matches!(statement, Statement::AssignStatement(_))));
}

#[test]
fn missing_closing_delimiter_does_not_consume_the_next_statement() {
    let source = r#"
use [nixpkgs
let recovered = true
"#;
    let (ast, errors) = parse(source);

    assert!(!errors.is_empty());
    assert_eq!(ast.statements.len(), 2);
    assert!(matches!(ast.statements[0], Statement::UseDeclare(_)));
    assert!(matches!(ast.statements[1], Statement::LetStatement(_)));
}

#[test]
fn function_return_type_is_optional_and_recovers_when_missing() {
    let source = r#"
opaque function inferred() {
    return true
}
inline function broken() -> {
    return false
}
let recovered = true
"#;
    let (ast, errors) = parse(source);

    assert_eq!(errors.len(), 1, "parse errors: {errors:#?}");
    assert_eq!(errors[0].kind, ParseErrorKind::InvalidFunctionDefine);
    assert_eq!(ast.statements.len(), 3);

    let Statement::FunctionDefine(inferred) = &ast.statements[0] else {
        panic!("expected inferred function");
    };
    assert!(inferred.return_type.is_none());

    let Statement::FunctionDefine(broken) = &ast.statements[1] else {
        panic!("expected recovered function");
    };
    assert!(broken.return_type.is_none());
    assert!(matches!(ast.statements[2], Statement::LetStatement(_)));
}

#[test]
fn let_type_and_initializer_are_independently_optional() {
    let source = r#"
let untyped
let typed: String
let initialized = "value"
let tunable complete: List<String> = []
"#;
    let (ast, errors) = parse(source);

    assert!(errors.is_empty(), "parse errors: {errors:#?}");
    assert_eq!(ast.statements.len(), 4);

    let Statement::LetStatement(untyped) = &ast.statements[0] else {
        panic!("expected untyped let");
    };
    assert!(untyped.type_info.is_none());
    assert!(untyped.value.is_none());

    let Statement::LetStatement(typed) = &ast.statements[1] else {
        panic!("expected typed let");
    };
    assert_eq!(typed.type_info.as_ref().unwrap().name.value, "String");
    assert!(typed.value.is_none());

    let Statement::LetStatement(initialized) = &ast.statements[2] else {
        panic!("expected initialized let");
    };
    assert!(initialized.type_info.is_none());
    assert!(initialized.value.is_some());

    let Statement::LetStatement(complete) = &ast.statements[3] else {
        panic!("expected complete let");
    };
    assert!(matches!(
        complete.policy.as_ref().map(|policy| &policy.kind),
        Some(MutationPolicyKind::Tunable { cost: None })
    ));
    assert_eq!(complete.type_info.as_ref().unwrap().name.value, "List");
    assert_eq!(complete.type_info.as_ref().unwrap().parameters[0].name.value, "String");
    assert!(complete.value.is_some());
}

#[test]
fn let_recovers_from_a_missing_type_before_the_initializer() {
    let source = r#"
let broken: = true
let recovered
"#;
    let (ast, errors) = parse(source);

    assert_eq!(errors.len(), 1, "parse errors: {errors:#?}");
    assert_eq!(errors[0].kind, ParseErrorKind::InvalidLetStatement);
    assert_eq!(ast.statements.len(), 2);

    let Statement::LetStatement(broken) = &ast.statements[0] else {
        panic!("expected recovered let");
    };
    assert!(broken.type_info.is_none());
    assert!(broken.value.is_some());
    assert!(matches!(ast.statements[1], Statement::LetStatement(_)));
}

#[test]
fn parses_import_statements_with_zero_copy_paths() {
    let source = r#"
import "./modules/programs.lnix"
import 'catalog/firefox.lnix';
let recovered = true
"#;
    let (ast, errors) = parse(source);

    assert!(errors.is_empty(), "parse errors: {errors:#?}");
    assert_eq!(ast.statements.len(), 3);

    let Statement::ImportStatement(first) = &ast.statements[0] else {
        panic!("expected first import statement");
    };
    assert!(matches!(first.kind, ImportKind::SideEffect));
    assert_eq!(first.path.value, r#""./modules/programs.lnix""#);
    assert_eq!(&source[first.path.span()], first.path.value);

    let Statement::ImportStatement(second) = &ast.statements[1] else {
        panic!("expected second import statement");
    };
    assert!(matches!(second.kind, ImportKind::SideEffect));
    assert_eq!(second.path.value, "'catalog/firefox.lnix'");
    assert_eq!(&source[second.path.span()], second.path.value);
    assert!(matches!(ast.statements[2], Statement::LetStatement(_)));
}

#[test]
fn parses_typescript_style_imports_and_exported_declarations() {
    let source = r#"
import "./common.lnix"
import { Programs, helper as desktop_helper } from "./programs.lnix"
import * as desktop from "./desktop.lnix"
export enum Profile { Desktop, Laptop }
export type Programs { enabled: Bool }
export declare let programs: Programs
export let public_value = true
export inline function identity(value: String) -> String {
    return value
}
let local_value = false
"#;
    let (ast, errors) = parse(source);

    assert!(errors.is_empty(), "parse errors: {errors:#?}");
    assert_eq!(ast.statements.len(), 9);

    let Statement::ImportStatement(side_effect) = &ast.statements[0] else {
        panic!("expected side-effect import");
    };
    assert!(matches!(side_effect.kind, ImportKind::SideEffect));

    let Statement::ImportStatement(named) = &ast.statements[1] else {
        panic!("expected named import");
    };
    let ImportKind::Named(elements) = &named.kind else {
        panic!("expected named import elements");
    };
    assert_eq!(elements.len(), 2);
    assert_eq!(elements[0].name.value, "Programs");
    assert!(elements[0].alias.is_none());
    assert_eq!(elements[1].name.value, "helper");
    assert_eq!(elements[1].alias.as_ref().unwrap().value, "desktop_helper");
    assert_eq!(named.path.value, r#""./programs.lnix""#);

    let Statement::ImportStatement(namespace) = &ast.statements[2] else {
        panic!("expected namespace import");
    };
    let ImportKind::Namespace { alias } = &namespace.kind else {
        panic!("expected namespace alias");
    };
    assert_eq!(alias.value, "desktop");
    assert_eq!(namespace.path.value, r#""./desktop.lnix""#);

    let Statement::EnumDefine(profile) = &ast.statements[3] else {
        panic!("expected exported enum");
    };
    assert!(profile.exported);

    let Statement::TypeDefine(programs_type) = &ast.statements[4] else {
        panic!("expected exported type");
    };
    assert!(programs_type.exported);

    let Statement::LetStatement(programs) = &ast.statements[5] else {
        panic!("expected exported declaration");
    };
    assert!(programs.exported);
    assert!(programs.declare);

    let Statement::LetStatement(public_value) = &ast.statements[6] else {
        panic!("expected exported binding");
    };
    assert!(public_value.exported);
    assert!(!public_value.declare);

    let Statement::FunctionDefine(identity) = &ast.statements[7] else {
        panic!("expected exported function");
    };
    assert!(identity.exported);

    let Statement::LetStatement(local_value) = &ast.statements[8] else {
        panic!("expected local binding");
    };
    assert!(!local_value.exported);
}

#[test]
fn parses_throw_expressions_and_assert_statements() {
    let source = r#"
let required = optional ?: throw "value is required"
let selected = match optional {
    null => throw "missing value",
    some(value) => value
}
assert required != "", "required must not be empty"
assert true,
    "multiline message"
throw "top-level failure: " + required
"#;
    let (ast, errors) = parse(source);

    assert!(errors.is_empty(), "parse errors: {errors:#?}");
    assert_eq!(ast.statements.len(), 5);

    let Statement::LetStatement(required) = &ast.statements[0] else {
        panic!("expected required binding");
    };
    let Expression::Elvis(required) = expression(&required.value) else {
        panic!("expected Elvis expression");
    };
    let Expression::Throw(missing_required) = required.fallback.as_ref() else {
        panic!("expected throw fallback");
    };
    assert!(missing_required.message.is_some());

    let Statement::LetStatement(selected) = &ast.statements[1] else {
        panic!("expected selected binding");
    };
    let Expression::Match(selected) = expression(&selected.value) else {
        panic!("expected match expression");
    };
    assert!(matches!(selected.arms[0].value.as_ref(), Expression::Throw(_)));

    let Statement::AssertStatement(non_empty) = &ast.statements[2] else {
        panic!("expected assertion");
    };
    assert!(matches!(non_empty.condition.as_ref(), Expression::Binary(_)));
    assert!(non_empty.message.is_some());

    let Statement::AssertStatement(multiline) = &ast.statements[3] else {
        panic!("expected multiline assertion");
    };
    assert!(multiline.message.is_some());

    let Statement::Expression(top_level) = &ast.statements[4] else {
        panic!("expected top-level throw expression");
    };
    let Expression::Throw(top_level) = top_level.as_ref() else {
        panic!("expected top-level throw expression");
    };
    assert!(matches!(top_level.message.as_deref(), Some(Expression::Binary(_))));
}

#[test]
fn malformed_throw_and_assert_recover_to_following_statements() {
    let source = r#"
let broken = throw
let recovered = true
assert recovered
let after_missing_comma = false
assert recovered,
let after_missing_message = true
throw
let after_throw = false
"#;
    let (ast, errors) = parse(source);

    assert_eq!(errors.len(), 4, "parse errors: {errors:#?}");
    assert_eq!(
        errors
            .iter()
            .filter(|error| error.kind == ParseErrorKind::InvalidThrowExpression)
            .count(),
        2
    );
    assert_eq!(
        errors
            .iter()
            .filter(|error| error.kind == ParseErrorKind::InvalidAssertStatement)
            .count(),
        2
    );
    assert_eq!(ast.statements.len(), 8);

    let Statement::LetStatement(broken) = &ast.statements[0] else {
        panic!("expected broken binding");
    };
    let Expression::Throw(broken_throw) = expression(&broken.value) else {
        panic!("expected recovered throw expression");
    };
    assert!(broken_throw.message.is_none());
    assert!(matches!(ast.statements[1], Statement::LetStatement(_)));

    let Statement::AssertStatement(missing_comma) = &ast.statements[2] else {
        panic!("expected assertion recovered from a missing comma");
    };
    assert!(missing_comma.message.is_none());
    assert!(matches!(ast.statements[3], Statement::LetStatement(_)));

    let Statement::AssertStatement(missing_message) = &ast.statements[4] else {
        panic!("expected assertion recovered from a missing message");
    };
    assert!(missing_message.message.is_none());
    assert!(matches!(ast.statements[5], Statement::LetStatement(_)));

    assert!(matches!(&ast.statements[6], Statement::Expression(e) if matches!(e.as_ref(), Expression::Throw(_))));
    assert!(matches!(ast.statements[7], Statement::LetStatement(_)));
}

#[test]
fn malformed_imports_and_exports_recover_to_following_declarations() {
    let source = r#"
import {
    Good as,
    Other
} from "./module.lnix"
import { MissingBrace
from "./second.lnix"
export use [invalid]
let recovered = true
"#;
    let (ast, errors) = parse(source);

    assert_eq!(errors.len(), 3, "parse errors: {errors:#?}");
    assert!(errors.iter().any(|error| error.kind == ParseErrorKind::InvalidImportElement));
    assert!(errors.iter().any(|error| error.kind == ParseErrorKind::NonClosedBrace));
    assert!(errors.iter().any(|error| error.kind == ParseErrorKind::InvalidExportStatement));
    assert_eq!(ast.statements.len(), 3);

    let Statement::ImportStatement(first) = &ast.statements[0] else {
        panic!("expected recovered named import");
    };
    let ImportKind::Named(elements) = &first.kind else {
        panic!("expected named imports");
    };
    assert_eq!(elements.len(), 2);
    assert_eq!(elements[0].name.value, "Good");
    assert!(elements[0].alias.is_none());
    assert_eq!(elements[1].name.value, "Other");

    let Statement::ImportStatement(second) = &ast.statements[1] else {
        panic!("expected import recovered from a missing brace");
    };
    let ImportKind::Named(elements) = &second.kind else {
        panic!("expected named imports");
    };
    assert_eq!(elements.len(), 1);
    assert_eq!(elements[0].name.value, "MissingBrace");
    assert!(matches!(ast.statements[2], Statement::LetStatement(_)));
}

#[test]
fn invalid_import_path_recovers_to_the_following_statement() {
    let source = r#"
import nixpkgs
let recovered = true
"#;
    let (ast, errors) = parse(source);

    assert_eq!(errors.len(), 1, "parse errors: {errors:#?}");
    assert_eq!(errors[0].kind, ParseErrorKind::InvalidImportStatement);
    assert_eq!(errors[0].scope, Scope::ImportStatement);
    assert_eq!(ast.statements.len(), 1);
    assert!(matches!(ast.statements[0], Statement::LetStatement(_)));
}

#[test]
fn parses_binding_and_field_mutation_policies() {
    let source = r#"
type Programs {
    readonly example0: Example0,
    tunable(cost = 200) example1: Example1,
    example2: Example2
}
declare let tunable(cost = 1) programs: Programs
let readonly snapshot: Programs
"#;
    let (ast, errors) = parse(source);

    assert!(errors.is_empty(), "parse errors: {errors:#?}");
    assert_eq!(ast.statements.len(), 3);

    let Statement::TypeDefine(programs_type) = &ast.statements[0] else {
        panic!("expected Programs type");
    };
    let [example0, example1, example2] = programs_type.body.fields.as_slice() else {
        panic!("expected three fields");
    };
    assert!(matches!(
        example0.policy.as_ref().map(|policy| &policy.kind),
        Some(MutationPolicyKind::Readonly)
    ));
    let Some(MutationPolicyKind::Tunable { cost: Some(cost) }) =
        example1.policy.as_ref().map(|policy| &policy.kind)
    else {
        panic!("expected costed tunable field");
    };
    assert_eq!(cost.value, 200);
    assert!(example2.policy.is_none());

    let Statement::LetStatement(programs) = &ast.statements[1] else {
        panic!("expected programs declaration");
    };
    assert!(programs.declare);
    let Some(MutationPolicyKind::Tunable { cost: Some(cost) }) =
        programs.policy.as_ref().map(|policy| &policy.kind)
    else {
        panic!("expected costed tunable declaration");
    };
    assert_eq!(cost.value, 1);

    let Statement::LetStatement(snapshot) = &ast.statements[2] else {
        panic!("expected snapshot binding");
    };
    assert!(!snapshot.declare);
    assert!(matches!(
        snapshot.policy.as_ref().map(|policy| &policy.kind),
        Some(MutationPolicyKind::Readonly)
    ));
}

#[test]
fn invalid_policy_cost_recovers_to_the_field_and_binding() {
    let source = r#"
type Programs {
    tunable(cost = 1.5) example: Example,
    readonly safe: Safe
}
declare let tunable(cost =) programs: Programs
let recovered = true
"#;
    let (ast, errors) = parse(source);

    assert_eq!(errors.len(), 2, "parse errors: {errors:#?}");
    assert!(errors.iter().all(|error| error.kind == ParseErrorKind::InvalidMutationPolicy));
    assert_eq!(ast.statements.len(), 3);

    let Statement::TypeDefine(programs_type) = &ast.statements[0] else {
        panic!("expected recovered Programs type");
    };
    assert_eq!(programs_type.body.fields.len(), 2);
    assert!(matches!(
        programs_type.body.fields[1].policy.as_ref().map(|policy| &policy.kind),
        Some(MutationPolicyKind::Readonly)
    ));

    let Statement::LetStatement(programs) = &ast.statements[1] else {
        panic!("expected recovered declaration");
    };
    assert!(programs.declare);
    assert!(matches!(
        programs.policy.as_ref().map(|policy| &policy.kind),
        Some(MutationPolicyKind::Tunable { cost: None })
    ));
    assert!(matches!(ast.statements[2], Statement::LetStatement(_)));
}

#[test]
fn deeply_nested_syntax_is_reported_not_followed() {
    let depth = 600;
    let source = format!("let value = {}1{}", "[".repeat(depth), "]".repeat(depth));
    let (ast, errors) = parse(&source);
    assert!(errors.iter().any(|error| error.kind == ParseErrorKind::TooDeeplyNested));
    assert_eq!(ast.statements.len(), 1);

    let shallow = format!("let value = {}1{}", "[".repeat(20), "]".repeat(20));
    let (ast, errors) = parse(&shallow);
    assert!(errors.is_empty(), "parse errors: {errors:#?}");
    assert_eq!(ast.statements.len(), 1);
}

#[test]
fn each_kind_of_syntax_error_is_reported_where_it_arises() {
    let cases: [(&str, ParseErrorKind); 23] = [
        ("let a = 1 let b = 2\n", ParseErrorKind::InvalidStatementSeparator),
        ("enum { A }\n", ParseErrorKind::InvalidEnumDefine),
        ("enum Mode A }\nlet after = 1\n", ParseErrorKind::UnexpectedToken),
        ("type { value: Int }\n", ParseErrorKind::InvalidTypedef),
        ("interface { }\n", ParseErrorKind::InvalidInterfaceDefine),
        ("implements Shape {}\n", ParseErrorKind::InvalidImplementsDefine),
        ("inline function f<T>() -> T where T Shape {\n    return f\n}\n", ParseErrorKind::InvalidWhereClause),
        ("use [1]\n", ParseErrorKind::InvalidUseElement),
        ("a =\n", ParseErrorKind::InvalidAssignStatement),
        ("a = { 1 }\n", ParseErrorKind::InvalidNestedAssignment),
        ("inline function f(1) {\n    return 1\n}\n", ParseErrorKind::InvalidFunctionArgument),
        ("let f = inline x\n", ParseErrorKind::InvalidClosureExpression),
        ("let a = -\n", ParseErrorKind::InvalidExpression),
        ("let a = match b {\n    some 1 => c\n}\n", ParseErrorKind::InvalidPattern),
        ("let a = some 1\n", ParseErrorKind::InvalidSomeValue),
        ("let a = b ?:\n", ParseErrorKind::InvalidElvisExpression),
        ("let a = b.\n", ParseErrorKind::InvalidPrimaryAccess),
        ("let a = [=]\n", ParseErrorKind::InvalidArrayElement),
        ("let a = f(=)\n", ParseErrorKind::InvalidFunctionCallArgument),
        ("let a = [1\nlet b = 2\n", ParseErrorKind::NonClosedBracket),
        ("let a = f(1\nlet b = 2\n", ParseErrorKind::NonClosedParenthesis),
        ("let a: List<Int\nlet b = 2\n", ParseErrorKind::NonClosedTypeParameter),
        (")\n", ParseErrorKind::InvalidStatement),
    ];
    let mut missing = Vec::new();
    for (source, kind) in cases {
        let (_, errors) = parse(source);
        if !errors.iter().any(|error| error.kind == kind) {
            let found: Vec<_> = errors.iter().map(|error| error.kind).collect();
            missing.push(format!("{source:?}: expected {kind:?}, found {found:?}"));
        }
    }
    assert!(missing.is_empty(), "{missing:#?}");
}

#[test]
fn underscore_matches_anything() {
    let source = "let a = match b {\n    some(_) => c\n    _ => d\n}\n";
    let (ast, errors) = parse(source);
    assert!(errors.is_empty(), "parse errors: {errors:#?}");
    let Statement::LetStatement(a) = &ast.statements[0] else {
        panic!("expected binding");
    };
    let Expression::Match(node) = expression(&a.value) else {
        panic!("expected match");
    };
    let Pattern::SomePattern(inner) = &node.arms[0].pattern else {
        panic!("expected some pattern");
    };
    assert!(matches!(inner.pattern.as_ref(), Pattern::Wildcard(_)));
    assert!(matches!(node.arms[1].pattern, Pattern::Wildcard(_)));
}
