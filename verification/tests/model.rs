use light_nix::ast::{BinaryOperator, MutationPolicyKind, Spanned};
use light_nix::graph::DependencyGraph;
use light_nix::model::{
    binary_operation, constraint, mutation_policy, objective, output_case, BinaryOperation,
    ConstraintId, ConstraintKind, ExpressionId, MutationPolicy, ObjectiveId, ObjectiveKind,
    OutputPath, SourceOrigin, VariableId, WeightedVariable,
};
use light_nix::names::{FieldId, ModuleId, SymbolId};

#[test]
fn model_records_keep_what_they_are_built_from() {
    let origin = SourceOrigin::new(ModuleId(4), 3..9);
    let made = constraint(ConstraintId(1), ExpressionId(2), ConstraintKind::Assert, Some(origin.clone()));
    assert_eq!(made.id(), ConstraintId(1));
    assert_eq!(made.condition(), ExpressionId(2));
    assert_eq!(made.kind(), ConstraintKind::Assert);
    assert_eq!(made.origin().unwrap().span(), 3..9);
    assert_eq!(made.origin().unwrap().module(), ModuleId(4));

    let weighted = WeightedVariable::new(VariableId(7), 200);
    let goal = objective(ObjectiveId(0), ObjectiveKind::MinimizeChanges(vec![weighted]), None);
    assert_eq!(goal.id(), ObjectiveId(0));
    assert!(goal.origin().is_none());
    let ObjectiveKind::MinimizeChanges(weights) = goal.kind() else {
        panic!("expected change objective");
    };
    assert_eq!(weights[0].variable(), VariableId(7));
    assert_eq!(weights[0].cost(), 200);

    let case = output_case(ExpressionId(5), ExpressionId(6), origin);
    assert_eq!(case.guard(), ExpressionId(5));
    assert_eq!(case.value(), ExpressionId(6));
    assert_eq!(case.origin().span(), 3..9);
}

#[test]
fn output_paths_extend_field_by_field() {
    let root = SymbolId { module: ModuleId(0), index: 3 };
    let first = FieldId { module: ModuleId(0), index: 1 };
    let second = FieldId { module: ModuleId(0), index: 2 };
    let path = OutputPath::root(root).field(first).field(second);
    assert_eq!(path.root_symbol(), root);
    assert_eq!(path.fields(), &[first, second]);
}

#[test]
fn policies_and_operators_map_to_the_model() {
    assert_eq!(mutation_policy(&MutationPolicyKind::Readonly), MutationPolicy::Readonly);
    assert_eq!(
        mutation_policy(&MutationPolicyKind::Tunable { cost: Some(Spanned::new(9, 0..1)) }),
        MutationPolicy::Tunable { cost: 9 }
    );
    assert_eq!(binary_operation(BinaryOperator::Add), BinaryOperation::Add);
    assert_eq!(binary_operation(BinaryOperator::GreaterThanOrEqual), BinaryOperation::GreaterThanOrEqual);
}

#[test]
fn a_default_graph_is_empty() {
    let graph = DependencyGraph::default();
    assert!(graph.nodes().is_empty());
    assert!(graph.edges().is_empty());
    assert!(graph.evaluation_order().unwrap().is_empty());
}
