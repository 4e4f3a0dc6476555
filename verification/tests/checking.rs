use lambda_rs::ast::{ASTNode, Operator, Span, Type, TypeAssignment, Value};
use lambda_rs::check::{TypeError, TypeErrorKind};
use lambda_rs::sym_tab::{Scope, SymbolTable};

fn at() -> Span {
    Span { start: 0, end: 0 }
}

fn nat_type() -> TypeAssignment {
    TypeAssignment::Single(Type::Nat)
}

fn bool_type() -> TypeAssignment {
    TypeAssignment::Single(Type::Bool)
}

fn arrow(from: TypeAssignment, to: TypeAssignment) -> TypeAssignment {
    TypeAssignment::Arrow(Box::new(from), Box::new(to))
}

fn zero() -> ASTNode {
    ASTNode::ValueNode { meta: at(), value: Value::Zero }
}

fn truth() -> ASTNode {
    ASTNode::ValueNode { meta: at(), value: Value::True }
}

fn succ(expr: ASTNode) -> ASTNode {
    ASTNode::ArithmeticNode { meta: at(), op: Operator::Succ, expr: Box::new(expr) }
}

fn pred(expr: ASTNode) -> ASTNode {
    ASTNode::ArithmeticNode { meta: at(), op: Operator::Pred, expr: Box::new(expr) }
}

fn iszero(expr: ASTNode) -> ASTNode {
    ASTNode::IsZeroNode { meta: at(), expr: Box::new(expr) }
}

fn var(name: &str) -> ASTNode {
    ASTNode::IdentifierNode { meta: at(), name: name.to_string() }
}

fn lambda(ident: &str, data_type: TypeAssignment, body: ASTNode) -> ASTNode {
    ASTNode::AbstractionNode {
        meta: at(),
        ident: ident.to_string(),
        data_type,
        body: Box::new(body),
    }
}

fn apply(left: ASTNode, right: ASTNode) -> ASTNode {
    ASTNode::ApplicationNode { meta: at(), left: Box::new(left), right: Box::new(right) }
}

fn cond(clause: ASTNode, then_arm: ASTNode, else_arm: ASTNode) -> ASTNode {
    ASTNode::ConditionNode {
        meta: at(),
        clause: Box::new(clause),
        then_arm: Box::new(then_arm),
        else_arm: Box::new(else_arm),
    }
}

fn record(fields: Vec<(&str, ASTNode)>) -> ASTNode {
    ASTNode::RecordNode {
        meta: at(),
        records: fields.into_iter().map(|(name, node)| (name.to_string(), node)).collect(),
    }
}

fn project(target: ASTNode, attrib: &str) -> ASTNode {
    ASTNode::ProjectionNode { meta: at(), target: Box::new(target), attrib: attrib.to_string() }
}

fn tag(ident: &str, value: ASTNode, data_type: TypeAssignment) -> ASTNode {
    ASTNode::TaggingNode {
        meta: at(),
        ident: ident.to_string(),
        value: Box::new(value),
        data_type,
    }
}

fn matching(to_match: ASTNode, cases: Vec<(&str, &str, ASTNode)>) -> ASTNode {
    ASTNode::MatchingNode {
        meta: at(),
        to_match: Box::new(to_match),
        cases: cases
            .into_iter()
            .map(|(variant, ident, arm)| (variant.to_string(), (ident.to_string(), Box::new(arm))))
            .collect(),
    }
}

fn fix(point: ASTNode) -> ASTNode {
    ASTNode::FixNode { meta: at(), point: Box::new(point) }
}

fn numeral(n: usize) -> ASTNode {
    let mut tree = zero();
    for _ in 0..n {
        tree = succ(tree);
    }
    tree
}

fn option_type() -> TypeAssignment {
    TypeAssignment::Variant(vec![("some".to_string(), nat_type()), ("none".to_string(), bool_type())])
}

/// `fix (\even: Nat -> Bool. \n: Nat. if iszero n then true else
/// if iszero (pred n) then false else even (pred (pred n)))`
fn is_even() -> ASTNode {
    let false_value = ASTNode::ValueNode { meta: at(), value: Value::False };
    fix(lambda(
        "even",
        arrow(nat_type(), bool_type()),
        lambda(
            "n",
            nat_type(),
            cond(
                iszero(var("n")),
                truth(),
                cond(
                    iszero(pred(var("n"))),
                    false_value,
                    apply(var("even"), pred(pred(var("n")))),
                ),
            ),
        ),
    ))
}

fn here(start: usize, end: usize) -> Span {
    Span { start, end }
}

fn kind_of(tree: ASTNode) -> TypeErrorKind {
    match tree.check() {
        Ok(t) => panic!("unexpected type: {:?}", t),
        Err(e) => e.kind,
    }
}

#[test]
fn literals_have_base_types() {
    assert!(truth().check().unwrap() == bool_type());
    assert!(zero().check().unwrap() == nat_type());
    let falsity = ASTNode::ValueNode { meta: at(), value: Value::False };
    assert!(falsity.check().unwrap() == bool_type());
}

#[test]
fn abstraction_has_arrow_type() {
    let tree = lambda("x", nat_type(), iszero(var("x")));
    assert!(tree.check().unwrap() == arrow(nat_type(), bool_type()));
}

#[test]
fn application_has_codomain_type() {
    let tree = apply(lambda("x", nat_type(), iszero(var("x"))), zero());
    assert!(tree.check().unwrap() == bool_type());
}

#[test]
fn record_type_ignores_field_order() {
    let tree = record(vec![("a", zero()), ("b", truth())]);
    let expected = TypeAssignment::Record(vec![
        ("b".to_string(), bool_type()),
        ("a".to_string(), nat_type()),
    ]);
    assert!(tree.check().unwrap() == expected);
    let different = TypeAssignment::Record(vec![
        ("b".to_string(), nat_type()),
        ("a".to_string(), nat_type()),
    ]);
    assert!(tree.check().unwrap() != different);
    let shorter = TypeAssignment::Record(vec![("a".to_string(), nat_type())]);
    assert!(tree.check().unwrap() != shorter);
    assert!(shorter != tree.check().unwrap());
}

#[test]
fn record_and_variant_types_differ() {
    let fields = vec![("a".to_string(), nat_type())];
    assert!(TypeAssignment::Record(fields.clone()) != TypeAssignment::Variant(fields));
}

#[test]
fn tagging_has_declared_type() {
    let tree = tag("some", zero(), option_type());
    assert!(tree.check().unwrap() == option_type());
}

#[test]
fn fixpoint_has_type_of_its_functional() {
    assert!(is_even().check().unwrap() == arrow(nat_type(), bool_type()));
}

#[test]
fn inner_binding_hides_outer_binding() {
    let tree = lambda("x", nat_type(), lambda("x", bool_type(), var("x")));
    assert!(tree.check().unwrap() == arrow(nat_type(), arrow(bool_type(), bool_type())));
}

#[test]
fn binding_ends_with_its_abstraction() {
    // The parameter of the function on the left is not in scope on the right.
    let tree = apply(lambda("x", nat_type(), var("x")), var("x"));
    assert_eq!(kind_of(tree), TypeErrorKind::UndefinedIdentifier);
}

#[test]
fn undefined_identifier_is_rejected() {
    let tree = ASTNode::IdentifierNode { meta: here(3, 4), name: "y".to_string() };
    assert_eq!(
        tree.check().unwrap_err(),
        TypeError { kind: TypeErrorKind::UndefinedIdentifier, span: here(3, 4) }
    );
}

#[test]
fn non_bool_clause_is_rejected() {
    assert_eq!(kind_of(cond(zero(), zero(), zero())), TypeErrorKind::ConditionNotBool);
}

#[test]
fn mismatched_branches_are_rejected() {
    assert_eq!(kind_of(cond(truth(), zero(), truth())), TypeErrorKind::BranchMismatch);
}

#[test]
fn zero_check_of_non_nat_is_rejected() {
    assert_eq!(kind_of(iszero(truth())), TypeErrorKind::ZeroCheckNotNat);
}

#[test]
fn arithmetic_on_non_nat_is_rejected() {
    assert_eq!(kind_of(succ(truth())), TypeErrorKind::ArithmeticNotNat);
    assert_eq!(kind_of(pred(truth())), TypeErrorKind::ArithmeticNotNat);
}

#[test]
fn applying_a_non_function_is_rejected() {
    assert_eq!(kind_of(apply(zero(), zero())), TypeErrorKind::ApplicationNotFunction);
}

#[test]
fn argument_of_wrong_type_is_rejected() {
    let tree = apply(lambda("x", nat_type(), var("x")), truth());
    assert_eq!(kind_of(tree), TypeErrorKind::ArgumentMismatch);
}

#[test]
fn projection_of_non_record_is_rejected() {
    assert_eq!(kind_of(project(zero(), "a")), TypeErrorKind::ProjectionNotRecord);
}

#[test]
fn projection_of_missing_field_is_rejected() {
    let tree = project(record(vec![("a", zero())]), "b");
    assert_eq!(kind_of(tree), TypeErrorKind::MissingField);
}

#[test]
fn match_on_non_variant_is_rejected() {
    let tree = matching(zero(), vec![("some", "x", var("x"))]);
    assert_eq!(kind_of(tree), TypeErrorKind::MatchNotVariant);
}

#[test]
fn match_without_a_case_for_an_alternative_is_rejected() {
    // The value is tagged `some`, so the missing arm would never run.
    let tree = matching(tag("some", zero(), option_type()), vec![("some", "x", var("x"))]);
    assert_eq!(kind_of(tree), TypeErrorKind::NonExhaustiveMatch);
    // Exhaustiveness is judged before the arms are.
    let tree = matching(tag("some", zero(), option_type()), vec![("some", "x", var("unbound"))]);
    assert_eq!(kind_of(tree), TypeErrorKind::NonExhaustiveMatch);
}

#[test]
fn match_with_mismatched_arms_is_rejected() {
    let tree = matching(
        tag("some", zero(), option_type()),
        vec![("some", "x", var("x")), ("none", "y", var("y"))],
    );
    assert_eq!(kind_of(tree), TypeErrorKind::ArmMismatch);
}

#[test]
fn match_on_empty_variant_is_rejected() {
    let empty = TypeAssignment::Variant(Vec::new());
    let tree = lambda("v", empty, matching(var("v"), Vec::new()));
    assert_eq!(kind_of(tree), TypeErrorKind::EmptyVariant);
}

#[test]
fn case_that_names_no_alternative_is_passed_over() {
    let tree = matching(
        tag("some", zero(), option_type()),
        vec![("some", "x", var("x")), ("none", "y", zero()), ("other", "z", var("unbound"))],
    );
    assert!(tree.check().unwrap() == nat_type());
}

#[test]
fn tag_outside_the_variant_is_rejected() {
    assert_eq!(kind_of(tag("other", zero(), option_type())), TypeErrorKind::TagMismatch);
    assert_eq!(kind_of(tag("some", truth(), option_type())), TypeErrorKind::TagMismatch);
    assert_eq!(kind_of(tag("some", zero(), nat_type())), TypeErrorKind::TagMismatch);
}

#[test]
fn fixpoint_of_non_function_is_rejected() {
    assert_eq!(kind_of(fix(zero())), TypeErrorKind::FixNotFunction);
}

#[test]
fn fixpoint_of_asymmetric_function_is_rejected() {
    let tree = fix(lambda("x", nat_type(), truth()));
    assert_eq!(kind_of(tree), TypeErrorKind::FixAsymmetric);
}

#[test]
fn first_error_is_reported() {
    let tree = record(vec![("a", succ(truth())), ("b", iszero(truth()))]);
    assert_eq!(kind_of(tree), TypeErrorKind::ArithmeticNotNat);
    let tree = apply(iszero(truth()), succ(truth()));
    assert_eq!(kind_of(tree), TypeErrorKind::ZeroCheckNotNat);
}

#[test]
fn error_carries_span_of_failing_node() {
    let inner = ASTNode::IsZeroNode { meta: here(5, 16), expr: Box::new(truth()) };
    let tree = ASTNode::ArithmeticNode {
        meta: here(0, 16),
        op: Operator::Succ,
        expr: Box::new(inner),
    };
    assert_eq!(
        tree.check().unwrap_err(),
        TypeError { kind: TypeErrorKind::ZeroCheckNotNat, span: here(5, 16) }
    );
}

#[test]
fn messages_describe_the_error() {
    let cases = vec![
        (TypeErrorKind::UndefinedIdentifier, "Identifier is not defined"),
        (
            TypeErrorKind::ConditionNotBool,
            "The clause of an if expression should be of type Bool",
        ),
        (
            TypeErrorKind::BranchMismatch,
            "The different outcomes of an if expression should have the same type",
        ),
        (TypeErrorKind::ZeroCheckNotNat, "The argument of a zero check should be of type Nat"),
        (TypeErrorKind::ArithmeticNotNat, "Arithmetic expression should have Nat as type"),
        (
            TypeErrorKind::ApplicationNotFunction,
            "Left argument of an application should be a function type",
        ),
        (
            TypeErrorKind::ArgumentMismatch,
            "Incorrect type of right argument in an application for the function type of the left argument",
        ),
        (TypeErrorKind::ProjectionNotRecord, "Target of a projection should be of type record"),
        (
            TypeErrorKind::MissingField,
            "Attribute of projection is not part of the record type",
        ),
        (TypeErrorKind::MatchNotVariant, "Argument of case expression should be a variant"),
        (
            TypeErrorKind::NonExhaustiveMatch,
            "Not all possible types in the variant are being handled",
        ),
        (
            TypeErrorKind::ArmMismatch,
            "All outcomes of a case expression should result in the same type",
        ),
        (TypeErrorKind::EmptyVariant, "Variant can't be empty"),
        (TypeErrorKind::TagMismatch, "Type of tagged value is not part of the variant"),
        (TypeErrorKind::FixNotFunction, "Argument of fixpoint is not a function"),
        (
            TypeErrorKind::FixAsymmetric,
            "Function argument of fixpoint does not result in the same type",
        ),
    ];
    for (kind, message) in cases {
        assert_eq!(TypeError { kind, span: at() }.message(), message);
    }
}

#[test]
fn has_variant_looks_the_tag_up() {
    assert!(option_type().has_variant("some", nat_type()));
    assert!(option_type().has_variant("none", bool_type()));
    assert!(!option_type().has_variant("some", bool_type()));
    assert!(!option_type().has_variant("other", nat_type()));
    assert!(!nat_type().has_variant("some", nat_type()));
    let record_type = TypeAssignment::Record(vec![("some".to_string(), nat_type())]);
    assert!(!record_type.has_variant("some", nat_type()));
}

#[test]
fn check_node_uses_the_bindings_of_the_table() {
    let mut table = SymbolTable::new();
    table.push(Scope::new("x".to_string(), nat_type()));
    assert!(succ(var("x")).check_node(&table).unwrap() == nat_type());
    assert_eq!(
        var("y").check_node(&table).unwrap_err().kind,
        TypeErrorKind::UndefinedIdentifier
    );
}

#[test]
fn copies_of_trees_are_equal() {
    let tree = apply(is_even(), numeral(2));
    assert!(tree.clone() == tree);
    assert!(tree != apply(is_even(), numeral(3)));
    let moved = ASTNode::ValueNode { meta: here(1, 2), value: Value::Zero };
    assert!(moved != zero());
    let one = record(vec![("a", zero()), ("b", truth())]);
    let other = record(vec![("b", truth()), ("a", zero())]);
    assert!(one != other);
}
