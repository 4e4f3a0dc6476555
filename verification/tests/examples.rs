use lambda_rs::ast::{ASTNode, Operator, Span, Type, TypeAssignment, Value};
use lambda_rs::eval::OutputValue;

fn at() -> Span {
    Span { start: 0, end: 0 }
}

fn nat_type() -> TypeAssignment {
    TypeAssignment::Single(Type::Nat)
}

fn bool_type() -> TypeAssignment {
    TypeAssignment::Single(Type::Bool)
}

fn arrow(from: TypeAssignment, to: TypeAssignment) -> TypeAssignment {
    TypeAssignment::Arrow(Box::new(from), Box::new(to))
}

fn zero() -> ASTNode {
    ASTNode::ValueNode { meta: at(), value: Value::Zero }
}

fn truth() -> ASTNode {
    ASTNode::ValueNode { meta: at(), value: Value::True }
}

fn succ(expr: ASTNode) -> ASTNode {
    ASTNode::ArithmeticNode { meta: at(), op: Operator::Succ, expr: Box::new(expr) }
}

fn pred(expr: ASTNode) -> ASTNode {
    ASTNode::ArithmeticNode { meta: at(), op: Operator::Pred, expr: Box::new(expr) }
}

fn iszero(expr: ASTNode) -> ASTNode {
    ASTNode::IsZeroNode { meta: at(), expr: Box::new(expr) }
}

fn var(name: &str) -> ASTNode {
    ASTNode::IdentifierNode { meta: at(), name: name.to_string() }
}

fn lambda(ident: &str, data_type: TypeAssignment, body: ASTNode) -> ASTNode {
    ASTNode::AbstractionNode {
        meta: at(),
        ident: ident.to_string(),
        data_type,
        body: Box::new(body),
    }
}

fn apply(left: ASTNode, right: ASTNode) -> ASTNode {
    ASTNode::ApplicationNode { meta: at(), left: Box::new(left), right: Box::new(right) }
}

fn cond(clause: ASTNode, then_arm: ASTNode, else_arm: ASTNode) -> ASTNode {
    ASTNode::ConditionNode {
        meta: at(),
        clause: Box::new(clause),
        then_arm: Box::new(then_arm),
        else_arm: Box::new(else_arm),
    }
}

fn record(fields: Vec<(&str, ASTNode)>) -> ASTNode {
    ASTNode::RecordNode {
        meta: at(),
        records: fields.into_iter().map(|(name, node)| (name.to_string(), node)).collect(),
    }
}

fn project(target: ASTNode, attrib: &str) -> ASTNode {
    ASTNode::ProjectionNode { meta: at(), target: Box::new(target), attrib: attrib.to_string() }
}

fn tag(ident: &str, value: ASTNode, data_type: TypeAssignment) -> ASTNode {
    ASTNode::TaggingNode {
        meta: at(),
        ident: ident.to_string(),
        value: Box::new(value),
        data_type,
    }
}

fn matching(to_match: ASTNode, cases: Vec<(&str, &str, ASTNode)>) -> ASTNode {
    ASTNode::MatchingNode {
        meta: at(),
        to_match: Box::new(to_match),
        cases: cases
            .into_iter()
            .map(|(variant, ident, arm)| (variant.to_string(), (ident.to_string(), Box::new(arm))))
            .collect(),
    }
}

fn fix(point: ASTNode) -> ASTNode {
    ASTNode::FixNode { meta: at(), point: Box::new(point) }
}

fn numeral(n: usize) -> ASTNode {
    let mut tree = zero();
    for _ in 0..n {
        tree = succ(tree);
    }
    tree
}

fn option_type() -> TypeAssignment {
    TypeAssignment::Variant(vec![("some".to_string(), nat_type()), ("none".to_string(), bool_type())])
}

/// `fix (\even: Nat -> Bool. \n: Nat. if iszero n then true else
/// if iszero (pred n) then false else even (pred (pred n)))`
fn is_even() -> ASTNode {
    let false_value = ASTNode::ValueNode { meta: at(), value: Value::False };
    fix(lambda(
        "even",
        arrow(nat_type(), bool_type()),
        lambda(
            "n",
            nat_type(),
            cond(
                iszero(var("n")),
                truth(),
                cond(
                    iszero(pred(var("n"))),
                    false_value,
                    apply(var("even"), pred(pred(var("n")))),
                ),
            ),
        ),
    ))
}

fn run_tree(tree: ASTNode, expected: OutputValue) {
    let _tree_type = tree
        .check()
        .unwrap_or_else(|e| panic!("Typechecking failed with {}", e.message()));
    assert_eq!(tree.eval(1000).unwrap(), expected);
}

#[test]
fn evaluate_examples() {
    run_tree(succ(succ(zero())), OutputValue::Nat(2));
    run_tree(apply(lambda("x", nat_type(), succ(var("x"))), zero()), OutputValue::Nat(1));
    run_tree(cond(iszero(zero()), succ(succ(zero())), zero()), OutputValue::Nat(2));
    run_tree(pred(succ(succ(zero()))), OutputValue::Nat(1));
    run_tree(
        apply(lambda("x", bool_type(), cond(var("x"), succ(zero()), zero())), truth()),
        OutputValue::Nat(1),
    );
    run_tree(pred(zero()), OutputValue::Nat(0));
    run_tree(
        apply(
            lambda("f", arrow(nat_type(), nat_type()), apply(var("f"), zero())),
            lambda("x", nat_type(), succ(var("x"))),
        ),
        OutputValue::Nat(1),
    );
    run_tree(
        apply(
            apply(
                lambda(
                    "f",
                    arrow(nat_type(), nat_type()),
                    lambda("x", nat_type(), apply(var("f"), apply(var("f"), var("x")))),
                ),
                lambda("x", nat_type(), succ(var("x"))),
            ),
            zero(),
        ),
        OutputValue::Nat(2),
    );

    let mut testmap = Vec::new();
    testmap.push(("status".to_string(), OutputValue::Bool(true)));
    testmap.push(("result".to_string(), OutputValue::Nat(1)));

    let status_record = || record(vec![("status", truth()), ("result", succ(zero()))]);
    run_tree(status_record(), OutputValue::Record(testmap));
    run_tree(project(status_record(), "result"), OutputValue::Nat(1));
    let arms = || vec![("some", "x", var("x")), ("none", "y", zero())];
    run_tree(matching(tag("none", truth(), option_type()), arms()), OutputValue::Nat(0));
    run_tree(matching(tag("some", numeral(3), option_type()), arms()), OutputValue::Nat(3));
    run_tree(apply(is_even(), numeral(4)), OutputValue::Bool(true));
    run_tree(apply(is_even(), numeral(3)), OutputValue::Bool(false));
}

#[test]
fn succ_succ_zero_is_two() {
    let tree = succ(succ(zero()));
    assert!(tree.check().unwrap() == nat_type());
    assert_eq!(tree.eval(0).unwrap(), OutputValue::Nat(2));
}

#[test]
fn iszero_zero_is_true() {
    let tree = iszero(zero());
    assert!(tree.check().unwrap() == bool_type());
    assert_eq!(tree.eval(0).unwrap(), OutputValue::Bool(true));
}

#[test]
fn record_literal_evaluates_to_record() {
    let tree = record(vec![("status", truth()), ("result", succ(zero()))]);
    let expected = OutputValue::Record(vec![
        ("status".to_string(), OutputValue::Bool(true)),
        ("result".to_string(), OutputValue::Nat(1)),
    ]);
    assert_eq!(tree.eval(0).unwrap(), expected);
    let projected = project(tree, "result");
    assert!(projected.check().unwrap() == nat_type());
    assert_eq!(projected.eval(0).unwrap(), OutputValue::Nat(1));
}

#[test]
fn matching_a_tagged_value_takes_its_arm() {
    let tree = matching(
        tag("some", succ(zero()), option_type()),
        vec![("some", "x", var("x")), ("none", "y", zero())],
    );
    assert!(tree.check().unwrap() == nat_type());
    assert_eq!(tree.eval(0).unwrap(), OutputValue::Nat(1));
}

#[test]
fn predecessor_never_goes_below_zero() {
    for depth in 0..20 {
        let mut tree = zero();
        for _ in 0..depth {
            tree = pred(tree);
        }
        assert_eq!(tree.eval(0).unwrap(), OutputValue::Nat(0));
    }
    assert_eq!(pred(pred(succ(zero()))).eval(0).unwrap(), OutputValue::Nat(0));
}

#[test]
fn record_fields_may_come_in_any_order() {
    let one = record(vec![("a", zero()), ("b", truth()), ("c", succ(zero()))]);
    let other = record(vec![("c", succ(zero())), ("a", zero()), ("b", truth())]);
    assert_eq!(one.eval(0).unwrap(), other.eval(0).unwrap());
    assert!(one.check().unwrap() == other.check().unwrap());
}

#[test]
fn closure_keeps_the_environment_it_was_made_in() {
    // (\x. (\f. (\x. f Zero) 2) (\y. x)) 1: `f` was made where `x` is 1.
    let tree = apply(
        lambda(
            "x",
            nat_type(),
            apply(
                lambda(
                    "f",
                    arrow(nat_type(), nat_type()),
                    apply(lambda("x", nat_type(), apply(var("f"), zero())), numeral(2)),
                ),
                lambda("y", nat_type(), var("x")),
            ),
        ),
        numeral(1),
    );
    assert!(tree.check().unwrap() == nat_type());
    assert_eq!(tree.eval(10).unwrap(), OutputValue::Nat(1));
}

#[test]
fn recursion_reaches_its_base_case() {
    for n in 0..12 {
        let tree = apply(is_even(), numeral(n));
        assert!(tree.check().unwrap() == bool_type());
        assert_eq!(tree.eval(100).unwrap(), OutputValue::Bool(n % 2 == 0));
    }
}

#[test]
fn untaken_branch_is_not_evaluated() {
    // The else arm would be a fault: it is never reached.
    let tree = cond(truth(), zero(), succ(truth()));
    assert_eq!(tree.eval(0).unwrap(), OutputValue::Nat(0));
}
