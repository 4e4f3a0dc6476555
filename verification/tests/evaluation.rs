use lambda_rs::ast::{ASTNode, Operator, Span, Type, TypeAssignment, Value};
use lambda_rs::eval::{EvalError, Fault, OutputValue};
use lambda_rs::sym_tab::{Scope, SymbolTable};

fn at() -> Span {
    Span { start: 0, end: 0 }
}

fn nat_type() -> TypeAssignment {
    TypeAssignment::Single(Type::Nat)
}

fn bool_type() -> TypeAssignment {
    TypeAssignment::Single(Type::Bool)
}

fn arrow(from: TypeAssignment, to: TypeAssignment) -> TypeAssignment {
    TypeAssignment::Arrow(Box::new(from), Box::new(to))
}

fn zero() -> ASTNode {
    ASTNode::ValueNode { meta: at(), value: Value::Zero }
}

fn truth() -> ASTNode {
    ASTNode::ValueNode { meta: at(), value: Value::True }
}

fn succ(expr: ASTNode) -> ASTNode {
    ASTNode::ArithmeticNode { meta: at(), op: Operator::Succ, expr: Box::new(expr) }
}

fn pred(expr: ASTNode) -> ASTNode {
    ASTNode::ArithmeticNode { meta: at(), op: Operator::Pred, expr: Box::new(expr) }
}

fn iszero(expr: ASTNode) -> ASTNode {
    ASTNode::IsZeroNode { meta: at(), expr: Box::new(expr) }
}

fn var(name: &str) -> ASTNode {
    ASTNode::IdentifierNode { meta: at(), name: name.to_string() }
}

fn lambda(ident: &str, data_type: TypeAssignment, body: ASTNode) -> ASTNode {
    ASTNode::AbstractionNode {
        meta: at(),
        ident: ident.to_string(),
        data_type,
        body: Box::new(body),
    }
}

fn apply(left: ASTNode, right: ASTNode) -> ASTNode {
    ASTNode::ApplicationNode { meta: at(), left: Box::new(left), right: Box::new(right) }
}

fn cond(clause: ASTNode, then_arm: ASTNode, else_arm: ASTNode) -> ASTNode {
    ASTNode::ConditionNode {
        meta: at(),
        clause: Box::new(clause),
        then_arm: Box::new(then_arm),
        else_arm: Box::new(else_arm),
    }
}

fn record(fields: Vec<(&str, ASTNode)>) -> ASTNode {
    ASTNode::RecordNode {
        meta: at(),
        records: fields.into_iter().map(|(name, node)| (name.to_string(), node)).collect(),
    }
}

fn project(target: ASTNode, attrib: &str) -> ASTNode {
    ASTNode::ProjectionNode { meta: at(), target: Box::new(target), attrib: attrib.to_string() }
}

fn tag(ident: &str, value: ASTNode, data_type: TypeAssignment) -> ASTNode {
    ASTNode::TaggingNode {
        meta: at(),
        ident: ident.to_string(),
        value: Box::new(value),
        data_type,
    }
}

fn matching(to_match: ASTNode, cases: Vec<(&str, &str, ASTNode)>) -> ASTNode {
    ASTNode::MatchingNode {
        meta: at(),
        to_match: Box::new(to_match),
        cases: cases
            .into_iter()
            .map(|(variant, ident, arm)| (variant.to_string(), (ident.to_string(), Box::new(arm))))
            .collect(),
    }
}

fn fix(point: ASTNode) -> ASTNode {
    ASTNode::FixNode { meta: at(), point: Box::new(point) }
}

fn numeral(n: usize) -> ASTNode {
    let mut tree = zero();
    for _ in 0..n {
        tree = succ(tree);
    }
    tree
}

fn option_type() -> TypeAssignment {
    TypeAssignment::Variant(vec![("some".to_string(), nat_type()), ("none".to_string(), bool_type())])
}

/// `fix (\even: Nat -> Bool. \n: Nat. if iszero n then true else
/// if iszero (pred n) then false else even (pred (pred n)))`
fn is_even() -> ASTNode {
    let false_value = ASTNode::ValueNode { meta: at(), value: Value::False };
    fix(lambda(
        "even",
        arrow(nat_type(), bool_type()),
        lambda(
            "n",
            nat_type(),
            cond(
                iszero(var("n")),
                truth(),
                cond(
                    iszero(pred(var("n"))),
                    false_value,
                    apply(var("even"), pred(pred(var("n")))),
                ),
            ),
        ),
    ))
}

fn fault_of(tree: ASTNode) -> EvalError {
    match tree.eval(10) {
        Ok(v) => panic!("unexpected value: {:?}", v),
        Err(e) => e,
    }
}

#[test]
fn successor_adds_one() {
    assert_eq!(numeral(5).eval(0).unwrap(), OutputValue::Nat(5));
    assert_eq!(pred(numeral(5)).eval(0).unwrap(), OutputValue::Nat(4));
}

#[test]
fn zero_check_tells_zero_from_others() {
    assert_eq!(iszero(zero()).eval(0).unwrap(), OutputValue::Bool(true));
    assert_eq!(iszero(succ(zero())).eval(0).unwrap(), OutputValue::Bool(false));
}

#[test]
fn conditional_takes_the_branch_of_its_clause() {
    let falsity = ASTNode::ValueNode { meta: at(), value: Value::False };
    assert_eq!(cond(truth(), zero(), numeral(1)).eval(0).unwrap(), OutputValue::Nat(0));
    assert_eq!(cond(falsity, zero(), numeral(1)).eval(0).unwrap(), OutputValue::Nat(1));
}

#[test]
fn abstraction_evaluates_to_closure() {
    let tree = lambda("x", nat_type(), var("x"));
    let expected = OutputValue::Func("x".to_string(), Box::new(var("x")), SymbolTable::new());
    assert_eq!(tree.eval(0).unwrap(), expected);
}

#[test]
fn tagging_evaluates_to_variant() {
    let tree = tag("some", succ(zero()), option_type());
    let expected = OutputValue::Variant("some".to_string(), Box::new(OutputValue::Nat(1)));
    assert_eq!(tree.eval(0).unwrap(), expected);
}

#[test]
fn argument_is_evaluated_where_the_call_stands() {
    let tree = apply(
        lambda("x", nat_type(), apply(lambda("y", nat_type(), succ(var("y"))), var("x"))),
        numeral(4),
    );
    assert_eq!(tree.eval(10).unwrap(), OutputValue::Nat(5));
}

#[test]
fn later_record_entry_overrides_earlier_one() {
    let tree = record(vec![("a", zero()), ("a", truth())]);
    assert_eq!(project(tree, "a").eval(0).unwrap(), OutputValue::Bool(true));
}

#[test]
fn record_values_ignore_entry_order() {
    let one = OutputValue::Record(vec![
        ("a".to_string(), OutputValue::Nat(1)),
        ("b".to_string(), OutputValue::Bool(false)),
    ]);
    let other = OutputValue::Record(vec![
        ("b".to_string(), OutputValue::Bool(false)),
        ("a".to_string(), OutputValue::Nat(1)),
    ]);
    let different = OutputValue::Record(vec![
        ("a".to_string(), OutputValue::Nat(2)),
        ("b".to_string(), OutputValue::Bool(false)),
    ]);
    let shorter = OutputValue::Record(vec![("a".to_string(), OutputValue::Nat(1))]);
    assert_eq!(one, other);
    assert_ne!(one, different);
    assert_ne!(one, shorter);
    assert_ne!(shorter, one);
    assert_ne!(OutputValue::Nat(1), OutputValue::Bool(true));
}

#[test]
fn copies_of_values_are_equal() {
    let value = apply(lambda("x", nat_type(), lambda("y", nat_type(), var("x"))), numeral(3))
        .eval(10)
        .unwrap();
    assert_eq!(value.clone(), value);
    let other = apply(lambda("x", nat_type(), lambda("y", nat_type(), var("x"))), numeral(4))
        .eval(10)
        .unwrap();
    assert_ne!(value, other);
}

#[test]
fn fuel_bounds_the_depth_of_calls() {
    let tree = apply(lambda("x", nat_type(), var("x")), zero());
    assert_eq!(tree.eval(0).unwrap_err(), EvalError::OutOfFuel);
    assert_eq!(tree.eval(1).unwrap(), OutputValue::Nat(0));
}

#[test]
fn endless_recursion_runs_out_of_fuel() {
    let looping = fix(lambda(
        "f",
        arrow(nat_type(), nat_type()),
        lambda("n", nat_type(), apply(var("f"), var("n"))),
    ));
    let tree = apply(looping, zero());
    assert!(tree.check().unwrap() == nat_type());
    assert_eq!(tree.eval(50).unwrap_err(), EvalError::OutOfFuel);
}

#[test]
fn more_fuel_gives_the_same_value() {
    let tree = apply(is_even(), numeral(6));
    let first = tree.eval(100).unwrap();
    assert_eq!(tree.eval(101).unwrap(), first);
    assert_eq!(tree.eval(500).unwrap(), first);
}

#[test]
fn successor_of_greatest_natural_overflows() {
    let mut table = SymbolTable::new();
    table.push(Scope::new("x".to_string(), OutputValue::Nat(usize::MAX)));
    assert_eq!(succ(var("x")).eval_node(&table, 0).unwrap_err(), EvalError::Overflow);
    assert_eq!(pred(var("x")).eval_node(&table, 0).unwrap(), OutputValue::Nat(usize::MAX - 1));
}

#[test]
fn unbound_identifier_is_a_fault() {
    assert_eq!(fault_of(var("x")), EvalError::Stuck(Fault::UnboundIdentifier));
}

#[test]
fn applying_a_non_function_is_a_fault() {
    assert_eq!(fault_of(apply(zero(), zero())), EvalError::Stuck(Fault::NotAFunction));
}

#[test]
fn arithmetic_on_non_nat_is_a_fault() {
    assert_eq!(fault_of(succ(truth())), EvalError::Stuck(Fault::ArithmeticOnNonNat));
    assert_eq!(fault_of(pred(truth())), EvalError::Stuck(Fault::ArithmeticOnNonNat));
}

#[test]
fn zero_check_of_non_nat_is_a_fault() {
    assert_eq!(fault_of(iszero(truth())), EvalError::Stuck(Fault::ZeroCheckOnNonNat));
}

#[test]
fn non_bool_clause_is_a_fault() {
    assert_eq!(
        fault_of(cond(zero(), zero(), zero())),
        EvalError::Stuck(Fault::ConditionOnNonBool)
    );
}

#[test]
fn projection_of_non_record_is_a_fault() {
    assert_eq!(fault_of(project(zero(), "a")), EvalError::Stuck(Fault::ProjectionOnNonRecord));
}

#[test]
fn projection_of_missing_field_is_a_fault() {
    let tree = project(record(vec![("a", zero())]), "b");
    assert_eq!(fault_of(tree), EvalError::Stuck(Fault::MissingAttribute));
}

#[test]
fn match_on_non_variant_is_a_fault() {
    let tree = matching(zero(), vec![("some", "x", var("x"))]);
    assert_eq!(fault_of(tree), EvalError::Stuck(Fault::MatchOnNonVariant));
}

#[test]
fn match_without_arm_for_the_tag_is_a_fault() {
    let tree = matching(tag("some", zero(), option_type()), vec![("none", "y", zero())]);
    assert_eq!(fault_of(tree), EvalError::Stuck(Fault::MissingArm));
}

#[test]
fn fixpoint_of_non_closure_is_a_fault() {
    assert_eq!(fault_of(fix(zero())), EvalError::Stuck(Fault::FixOnNonFunction));
}

#[test]
fn calling_a_recursive_value_that_wraps_no_closure_is_a_fault() {
    let mut table = SymbolTable::new();
    table.push(Scope::new("f".to_string(), OutputValue::Fix(Box::new(OutputValue::Nat(0)))));
    let tree = apply(var("f"), zero());
    assert_eq!(tree.eval_node(&table, 10).unwrap_err(), EvalError::Stuck(Fault::NotAFunction));
}

#[test]
fn trees_without_fixpoints_come_to_an_end() {
    // Twice applied to twice, applied to the successor and to zero: four.
    let twice = || {
        lambda(
            "f",
            arrow(nat_type(), nat_type()),
            lambda("x", nat_type(), apply(var("f"), apply(var("f"), var("x")))),
        )
    };
    let twice_twice = lambda(
        "g",
        arrow(arrow(nat_type(), nat_type()), arrow(nat_type(), nat_type())),
        lambda(
            "h",
            arrow(nat_type(), nat_type()),
            apply(var("g"), apply(var("g"), var("h"))),
        ),
    );
    let tree = apply(
        apply(apply(twice_twice, twice()), lambda("x", nat_type(), succ(var("x")))),
        zero(),
    );
    assert!(tree.check().unwrap() == nat_type());
    assert_eq!(tree.eval(50).unwrap(), OutputValue::Nat(4));
    assert_eq!(tree.eval(500).unwrap(), OutputValue::Nat(4));
}

#[test]
fn checked_trees_with_guarded_recursion_meet_no_fault() {
    let trees = vec![
        apply(is_even(), numeral(5)),
        matching(
            tag("none", truth(), option_type()),
            vec![("some", "x", var("x")), ("none", "y", zero())],
        ),
        project(record(vec![("f", lambda("x", nat_type(), succ(var("x"))))]), "f"),
    ];
    for tree in trees {
        assert!(tree.check().is_ok());
        for fuel in 0..40 {
            match tree.eval(fuel) {
                Err(EvalError::Stuck(fault)) => panic!("fault: {:?}", fault),
                _ => {}
            }
        }
    }
}

#[test]
fn guarded_recursion_is_recognised() {
    assert!(apply(is_even(), numeral(5)).has_guarded_recursion());
    assert!(zero().has_guarded_recursion());
    assert!(record(vec![("f", is_even())]).has_guarded_recursion());
    // A fixpoint at a base type.
    assert!(!succ(fix(lambda("x", nat_type(), var("x")))).has_guarded_recursion());
    // A fixpoint of something that is no abstraction.
    let tree = lambda("g", arrow(nat_type(), nat_type()), fix(var("g")));
    assert!(!tree.has_guarded_recursion());
    // Deep inside a record, and inside the arm of a match.
    assert!(!record(vec![("a", zero()), ("b", fix(zero()))]).has_guarded_recursion());
    let tree = matching(
        tag("some", zero(), option_type()),
        vec![("some", "x", var("x")), ("none", "y", fix(zero()))],
    );
    assert!(!tree.has_guarded_recursion());
}

#[test]
fn recursion_at_a_base_type_can_meet_a_fault() {
    // The successor of a fixpoint taken at type Nat has type Nat, and finds
    // no natural when it runs.
    let tree = succ(fix(lambda("x", nat_type(), var("x"))));
    assert!(tree.check().unwrap() == nat_type());
    assert_eq!(tree.eval(10).unwrap_err(), EvalError::Stuck(Fault::ArithmeticOnNonNat));
}

#[test]
fn values_render_as_text() {
    assert_eq!(OutputValue::Nat(0).to_string(), "0");
    assert_eq!(OutputValue::Nat(7).to_string(), "7");
    assert_eq!(OutputValue::Nat(10).to_string(), "10");
    assert_eq!(OutputValue::Nat(1234567890).to_string(), "1234567890");
    assert_eq!(OutputValue::Nat(usize::MAX).to_string(), format!("{}", usize::MAX));
    assert_eq!(OutputValue::Bool(true).to_string(), "true");
    assert_eq!(OutputValue::Bool(false).to_string(), "false");
    let variant = OutputValue::Variant("some".to_string(), Box::new(OutputValue::Nat(1)));
    assert_eq!(variant.to_string(), "<some=1>");
    let fields = OutputValue::Record(vec![
        ("status".to_string(), OutputValue::Bool(true)),
        ("result".to_string(), OutputValue::Nat(1)),
    ]);
    assert_eq!(fields.to_string(), "{status=true, result=1}");
    assert_eq!(OutputValue::Record(Vec::new()).to_string(), "{}");
    let nested = OutputValue::Record(vec![("inner".to_string(), fields)]);
    assert_eq!(nested.to_string(), "{inner={status=true, result=1}}");
}

#[test]
fn overridden_record_entry_has_no_text() {
    let fields = OutputValue::Record(vec![
        ("a".to_string(), OutputValue::Nat(1)),
        ("b".to_string(), OutputValue::Nat(2)),
        ("a".to_string(), OutputValue::Nat(3)),
    ]);
    assert_eq!(fields.to_string(), "{b=2, a=3}");
}

#[test]
fn functions_render_as_placeholders() {
    let closure = lambda("x", nat_type(), var("x")).eval(0).unwrap();
    assert_eq!(closure.to_string(), "@ x. ..");
    let recursive = OutputValue::Fix(Box::new(closure));
    assert_eq!(recursive.to_string(), "fix @ x. ..");
}
