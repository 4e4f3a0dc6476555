use lambda_rs::ast::{ASTNode, Operator, Span, Type, TypeAssignment, Value};
use lambda_rs::builder::{build_ast, build_node, build_type, BuildError, ParseTree, Rule};
use lambda_rs::eval::OutputValue;

fn found(rule: Rule, start: usize, text: &str, inner: Vec<ParseTree>) -> ParseTree {
    ParseTree {
        rule,
        meta: Span { start, end: start + text.len() },
        text: text.to_string(),
        inner,
    }
}

fn leaf(rule: Rule, start: usize, text: &str) -> ParseTree {
    found(rule, start, text, Vec::new())
}

fn span(start: usize, end: usize) -> Span {
    Span { start, end }
}

fn nat_type() -> TypeAssignment {
    TypeAssignment::Single(Type::Nat)
}

fn bool_type() -> TypeAssignment {
    TypeAssignment::Single(Type::Bool)
}

/// The matches of `succ Zero`.
fn succ_zero(start: usize) -> ParseTree {
    found(
        Rule::Arithmetic,
        start,
        "succ Zero",
        vec![leaf(Rule::OpSucc, start, "succ"), leaf(Rule::ValZero, start + 5, "Zero")],
    )
}

#[test]
fn program_is_built_from_its_first_match() {
    let parsed = vec![found(
        Rule::Program,
        0,
        "succ Zero",
        vec![found(Rule::Application, 0, "succ Zero", vec![succ_zero(0)]), leaf(Rule::Other, 9, "")],
    )];
    let tree = build_ast(&parsed).unwrap();
    let expected = ASTNode::ArithmeticNode {
        meta: span(0, 9),
        op: Operator::Succ,
        expr: Box::new(ASTNode::ValueNode { meta: span(5, 9), value: Value::Zero }),
    };
    assert!(tree == expected);
    assert!(tree.check().unwrap() == nat_type());
    assert_eq!(tree.eval(0).unwrap(), OutputValue::Nat(1));
}

#[test]
fn no_match_is_no_program() {
    assert_eq!(build_ast(&Vec::new()).unwrap_err(), BuildError::EmptyInput);
    let parsed = vec![leaf(Rule::Program, 0, "")];
    assert_eq!(build_ast(&parsed).unwrap_err(), BuildError::Incomplete(Rule::Program));
}

#[test]
fn literals_are_built() {
    let zero = build_node(&leaf(Rule::ValZero, 2, "Zero")).unwrap();
    assert!(zero == ASTNode::ValueNode { meta: span(2, 6), value: Value::Zero });
    let yes = build_node(&leaf(Rule::ValTrue, 0, "true")).unwrap();
    assert!(yes == ASTNode::ValueNode { meta: span(0, 4), value: Value::True });
    let no = build_node(&leaf(Rule::ValFalse, 0, "false")).unwrap();
    assert!(no == ASTNode::ValueNode { meta: span(0, 5), value: Value::False });
}

#[test]
fn application_of_one_part_is_that_part() {
    let tree = found(Rule::Application, 0, "Zero", vec![leaf(Rule::ValZero, 0, "Zero")]);
    let node = build_node(&tree).unwrap();
    assert!(node == ASTNode::ValueNode { meta: span(0, 4), value: Value::Zero });
}

#[test]
fn application_of_two_parts_applies_the_first() {
    let tree = found(
        Rule::Application,
        0,
        "f Zero",
        vec![leaf(Rule::Ident, 0, "f"), leaf(Rule::ValZero, 2, "Zero")],
    );
    let expected = ASTNode::ApplicationNode {
        meta: span(0, 6),
        left: Box::new(ASTNode::IdentifierNode { meta: span(0, 1), name: "f".to_string() }),
        right: Box::new(ASTNode::ValueNode { meta: span(2, 6), value: Value::Zero }),
    };
    assert!(build_node(&tree).unwrap() == expected);
}

#[test]
fn identifier_loses_its_spaces() {
    let node = build_node(&leaf(Rule::ParenIdent, 0, " x y ")).unwrap();
    assert!(node == ASTNode::IdentifierNode { meta: span(0, 5), name: "xy".to_string() });
    let node = build_node(&leaf(Rule::Ident, 0, "abc")).unwrap();
    assert!(node == ASTNode::IdentifierNode { meta: span(0, 3), name: "abc".to_string() });
    let node = build_node(&leaf(Rule::Ident, 0, "   ")).unwrap();
    assert!(node == ASTNode::IdentifierNode { meta: span(0, 3), name: String::new() });
}

#[test]
fn abstraction_is_built_with_its_type() {
    let binding = found(
        Rule::TypeTerm,
        1,
        "x:Nat->Bool",
        vec![
            leaf(Rule::Name, 1, "x"),
            found(
                Rule::TypeArrow,
                3,
                "Nat->Bool",
                vec![leaf(Rule::TypeNat, 3, "Nat"), leaf(Rule::TypeBool, 8, "Bool")],
            ),
        ],
    );
    let tree = found(Rule::Abstraction, 0, "@x:Nat->Bool.x", vec![binding, leaf(Rule::Ident, 13, "x")]);
    let expected = ASTNode::AbstractionNode {
        meta: span(0, 14),
        ident: "x".to_string(),
        data_type: TypeAssignment::Arrow(Box::new(nat_type()), Box::new(bool_type())),
        body: Box::new(ASTNode::IdentifierNode { meta: span(13, 14), name: "x".to_string() }),
    };
    assert!(build_node(&tree).unwrap() == expected);
}

#[test]
fn record_and_variant_types_are_built() {
    let term = |name: &str, rule: Rule| {
        found(Rule::TypeTerm, 0, "", vec![leaf(Rule::Name, 0, name), leaf(rule, 0, "")])
    };
    let record = found(
        Rule::TypeRecord,
        0,
        "",
        vec![term("a", Rule::TypeNat), term("b", Rule::TypeBool)],
    );
    let expected = TypeAssignment::Record(vec![
        ("a".to_string(), nat_type()),
        ("b".to_string(), bool_type()),
    ]);
    assert!(build_type(&record).unwrap() == expected);
    let variant = found(Rule::TypeVariant, 0, "", vec![term("some", Rule::TypeNat)]);
    let expected = TypeAssignment::Variant(vec![("some".to_string(), nat_type())]);
    assert!(build_type(&variant).unwrap() == expected);
}

#[test]
fn conditional_zero_check_and_fixpoint_are_built() {
    let tree = found(
        Rule::IfThen,
        0,
        "",
        vec![
            found(Rule::ZeroCheck, 0, "", vec![leaf(Rule::ValZero, 0, "")]),
            leaf(Rule::ValTrue, 0, ""),
            found(Rule::Fixpoint, 0, "", vec![leaf(Rule::Ident, 0, "f")]),
        ],
    );
    let at = span(0, 0);
    let expected = ASTNode::ConditionNode {
        meta: at,
        clause: Box::new(ASTNode::IsZeroNode {
            meta: at,
            expr: Box::new(ASTNode::ValueNode { meta: at, value: Value::Zero }),
        }),
        then_arm: Box::new(ASTNode::ValueNode { meta: at, value: Value::True }),
        else_arm: Box::new(ASTNode::FixNode {
            meta: at,
            point: Box::new(ASTNode::IdentifierNode { meta: span(0, 1), name: "f".to_string() }),
        }),
    };
    assert!(build_node(&tree).unwrap() == expected);
}

#[test]
fn record_and_projection_are_built() {
    let element = |name: &str, value: ParseTree| {
        found(Rule::RecordElement, 0, "", vec![leaf(Rule::Name, 0, name), value])
    };
    let record = found(
        Rule::Record,
        0,
        "",
        vec![element("status", leaf(Rule::ValTrue, 0, "")), element("result", succ_zero(0))],
    );
    let tree = found(Rule::Projection, 0, "", vec![record, leaf(Rule::Name, 0, "result")]);
    let node = build_node(&tree).unwrap();
    match &node {
        ASTNode::ProjectionNode { attrib, target, .. } => {
            assert_eq!(attrib, "result");
            match &**target {
                ASTNode::RecordNode { records, .. } => {
                    assert_eq!(records.len(), 2);
                    assert_eq!(records[0].0, "status");
                    assert_eq!(records[1].0, "result");
                }
                other => panic!("unexpected target: {:?}", other),
            }
        }
        other => panic!("unexpected node: {:?}", other),
    }
    assert_eq!(node.eval(0).unwrap(), OutputValue::Nat(1));
}

#[test]
fn tagging_and_matching_are_built() {
    let term = |name: &str, rule: Rule| {
        found(Rule::TypeTerm, 0, "", vec![leaf(Rule::Name, 0, name), leaf(rule, 0, "")])
    };
    let option = found(
        Rule::TypeVariant,
        0,
        "",
        vec![term("some", Rule::TypeNat), term("none", Rule::TypeBool)],
    );
    let tagged = found(Rule::Tagging, 0, "", vec![leaf(Rule::Name, 0, "some"), succ_zero(0), option]);
    let case = |variant: &str, ident: &str, arm: ParseTree| {
        found(
            Rule::CaseElement,
            0,
            "",
            vec![leaf(Rule::Name, 0, variant), leaf(Rule::Name, 0, ident), arm],
        )
    };
    let tree = found(
        Rule::Matching,
        0,
        "",
        vec![
            tagged,
            case("some", "x", leaf(Rule::Ident, 0, "x")),
            case("none", "y", leaf(Rule::ValZero, 0, "")),
        ],
    );
    let node = build_node(&tree).unwrap();
    assert!(node.check().unwrap() == nat_type());
    assert_eq!(node.eval(0).unwrap(), OutputValue::Nat(1));
}

#[test]
fn missing_parts_are_reported() {
    let incomplete = |rule: Rule, inner: Vec<ParseTree>| {
        build_node(&found(rule, 0, "", inner)).unwrap_err()
    };
    let zero = || leaf(Rule::ValZero, 0, "");
    assert_eq!(incomplete(Rule::Application, vec![]), BuildError::Incomplete(Rule::Application));
    assert_eq!(incomplete(Rule::Abstraction, vec![]), BuildError::Incomplete(Rule::Abstraction));
    assert_eq!(
        incomplete(Rule::Abstraction, vec![leaf(Rule::TypeTerm, 0, "")]),
        BuildError::Incomplete(Rule::TypeTerm)
    );
    assert_eq!(incomplete(Rule::Arithmetic, vec![]), BuildError::Incomplete(Rule::Arithmetic));
    assert_eq!(
        incomplete(Rule::Arithmetic, vec![leaf(Rule::OpPred, 0, "")]),
        BuildError::Incomplete(Rule::Arithmetic)
    );
    assert_eq!(incomplete(Rule::ZeroCheck, vec![]), BuildError::Incomplete(Rule::ZeroCheck));
    assert_eq!(incomplete(Rule::IfThen, vec![zero(), zero()]), BuildError::Incomplete(Rule::IfThen));
    assert_eq!(incomplete(Rule::Projection, vec![zero()]), BuildError::Incomplete(Rule::Projection));
    assert_eq!(
        incomplete(Rule::Record, vec![found(Rule::RecordElement, 0, "", vec![zero()])]),
        BuildError::Incomplete(Rule::RecordElement)
    );
    assert_eq!(incomplete(Rule::Matching, vec![]), BuildError::Incomplete(Rule::Matching));
    assert_eq!(
        incomplete(Rule::Matching, vec![zero(), found(Rule::CaseElement, 0, "", vec![zero()])]),
        BuildError::Incomplete(Rule::CaseElement)
    );
    assert_eq!(
        incomplete(Rule::Tagging, vec![zero(), zero()]),
        BuildError::Incomplete(Rule::Tagging)
    );
    assert_eq!(incomplete(Rule::Fixpoint, vec![]), BuildError::Incomplete(Rule::Fixpoint));
}

#[test]
fn unknown_rules_are_reported() {
    assert_eq!(
        build_node(&leaf(Rule::TypeNat, 0, "Nat")).unwrap_err(),
        BuildError::NotImplemented(Rule::TypeNat)
    );
    assert_eq!(
        build_node(&leaf(Rule::Other, 0, "")).unwrap_err(),
        BuildError::NotImplemented(Rule::Other)
    );
    let tree = found(
        Rule::Arithmetic,
        0,
        "",
        vec![leaf(Rule::ValZero, 0, ""), leaf(Rule::ValZero, 0, "")],
    );
    assert_eq!(build_node(&tree).unwrap_err(), BuildError::IncorrectOperator(Rule::ValZero));
    assert_eq!(
        build_type(&leaf(Rule::ValZero, 0, "")).unwrap_err(),
        BuildError::IncorrectType(Rule::ValZero)
    );
    assert_eq!(
        build_type(&found(Rule::TypeArrow, 0, "", vec![leaf(Rule::TypeNat, 0, "")])).unwrap_err(),
        BuildError::Incomplete(Rule::TypeArrow)
    );
}

#[test]
fn first_error_in_the_order_of_the_text_is_reported() {
    let tree = found(
        Rule::Application,
        0,
        "",
        vec![leaf(Rule::Other, 0, ""), leaf(Rule::TypeBool, 0, "")],
    );
    assert_eq!(build_node(&tree).unwrap_err(), BuildError::NotImplemented(Rule::Other));
}
