//! The type checker: the typing rules as a function on models, and the
//! recursive check that computes it.

use crate::assoc::{
    as_map, find_last, lemma_as_map, lemma_position, lemma_position_some, names_in, names_of,
};
use crate::ast::{
    case_entries, find_type, lemma_case_entries, lemma_record_entries, lemma_type_entries,
    record_entries, type_entries, ASTNode, Name, Span, Term, Ty, Type, TypeAssignment, Value,
};
use crate::sym_tab::{innermost, lemma_innermost_map, Scope, SymbolTable};
use vstd::prelude::*;

verus! {

/// The ways in which a tree can fail to have a type.
#[derive(Debug, Clone, Copy, PartialEq, Eq, Structural)]
pub enum TypeErrorKind {
    /// An identifier with no binding in scope.
    UndefinedIdentifier,
    /// The clause of a conditional is not of type Bool.
    ConditionNotBool,
    /// The two arms of a conditional differ in type.
    BranchMismatch,
    /// The operand of a zero check is not of type Nat.
    ZeroCheckNotNat,
    /// The operand of `succ` or `pred` is not of type Nat.
    ArithmeticNotNat,
    /// The left side of an application is not a function.
    ApplicationNotFunction,
    /// The argument of an application is not of the function's domain.
    ArgumentMismatch,
    /// The target of a projection is not a record.
    ProjectionNotRecord,
    /// The projected field is not part of the record type.
    MissingField,
    /// The scrutinee of a match is not a variant.
    MatchNotVariant,
    /// An alternative of the variant type has no case.
    NonExhaustiveMatch,
    /// Two arms of a match differ in type.
    ArmMismatch,
    /// The scrutinee's variant type has no alternative.
    EmptyVariant,
    /// The declared type of a tagging is no variant type that gives the tag
    /// the type of the tagged value.
    TagMismatch,
    /// The operand of a fixpoint is not a function.
    FixNotFunction,
    /// The operand of a fixpoint is a function between two different types.
    FixAsymmetric,
}

/// A type error: what went wrong, and at which node.
#[derive(Debug, Clone, Copy, PartialEq, Eq, Structural)]
pub struct TypeError {
    pub kind: TypeErrorKind,
    pub span: Span,
}

impl TypeErrorKind {
    /// The message that describes this kind of error.
    pub open spec fn text(self) -> Seq<char> {
        match self {
            TypeErrorKind::UndefinedIdentifier => "Identifier is not defined"@,
            TypeErrorKind::ConditionNotBool => "The clause of an if expression should be of type Bool"@,
            TypeErrorKind::BranchMismatch => "The different outcomes of an if expression should have the same type"@,
            TypeErrorKind::ZeroCheckNotNat => "The argument of a zero check should be of type Nat"@,
            TypeErrorKind::ArithmeticNotNat => "Arithmetic expression should have Nat as type"@,
            TypeErrorKind::ApplicationNotFunction => "Left argument of an application should be a function type"@,
            TypeErrorKind::ArgumentMismatch => "Incorrect type of right argument in an application for the function type of the left argument"@,
            TypeErrorKind::ProjectionNotRecord => "Target of a projection should be of type record"@,
            TypeErrorKind::MissingField => "Attribute of projection is not part of the record type"@,
            TypeErrorKind::MatchNotVariant => "Argument of case expression should be a variant"@,
            TypeErrorKind::NonExhaustiveMatch => "Not all possible types in the variant are being handled"@,
            TypeErrorKind::ArmMismatch => "All outcomes of a case expression should result in the same type"@,
            TypeErrorKind::EmptyVariant => "Variant can't be empty"@,
            TypeErrorKind::TagMismatch => "Type of tagged value is not part of the variant"@,
            TypeErrorKind::FixNotFunction => "Argument of fixpoint is not a function"@,
            TypeErrorKind::FixAsymmetric => "Function argument of fixpoint does not result in the same type"@,
        }
    }
}

impl TypeError {
    /// The message that describes the error to a reader.
    pub fn message(&self) -> (message: String)
        ensures
            message@ == self.kind.text(),
    {
        let text = match self.kind {
            TypeErrorKind::UndefinedIdentifier => "Identifier is not defined",
            TypeErrorKind::ConditionNotBool => "The clause of an if expression should be of type Bool",
            TypeErrorKind::BranchMismatch => "The different outcomes of an if expression should have the same type",
            TypeErrorKind::ZeroCheckNotNat => "The argument of a zero check should be of type Nat",
            TypeErrorKind::ArithmeticNotNat => "Arithmetic expression should have Nat as type",
            TypeErrorKind::ApplicationNotFunction => "Left argument of an application should be a function type",
            TypeErrorKind::ArgumentMismatch => "Incorrect type of right argument in an application for the function type of the left argument",
            TypeErrorKind::ProjectionNotRecord => "Target of a projection should be of type record",
            TypeErrorKind::MissingField => "Attribute of projection is not part of the record type",
            TypeErrorKind::MatchNotVariant => "Argument of case expression should be a variant",
            TypeErrorKind::NonExhaustiveMatch => "Not all possible types in the variant are being handled",
            TypeErrorKind::ArmMismatch => "All outcomes of a case expression should result in the same type",
            TypeErrorKind::EmptyVariant => "Variant can't be empty",
            TypeErrorKind::TagMismatch => "Type of tagged value is not part of the variant",
            TypeErrorKind::FixNotFunction => "Argument of fixpoint is not a function",
            TypeErrorKind::FixAsymmetric => "Function argument of fixpoint does not result in the same type",
        };
        text.to_owned()
    }
}

/// What the checker knows of the identifiers in scope: their types, the
/// outermost binding first.
pub type Context = Seq<(Name, Ty)>;

/// The type of a term in a context, or the first error that the rules meet.
pub open spec fn type_of(term: Term, ctx: Context) -> Result<Ty, TypeError>
    decreases term,
{
    match term {
        Term::Literal { meta, value } => match value {
            Value::True => Ok(Ty::Single(Type::Bool)),
            Value::False => Ok(Ty::Single(Type::Bool)),
            Value::Zero => Ok(Ty::Single(Type::Nat)),
        },
        Term::IsZero { meta, expr } => match type_of(*expr, ctx) {
            Err(e) => Err(e),
            Ok(t) => if t == Ty::Single(Type::Nat) {
                Ok(Ty::Single(Type::Bool))
            } else {
                Err(TypeError { kind: TypeErrorKind::ZeroCheckNotNat, span: meta })
            },
        },
        Term::Identifier { meta, name } => match innermost(ctx, name) {
            Some(t) => Ok(t),
            None => Err(TypeError { kind: TypeErrorKind::UndefinedIdentifier, span: meta }),
        },
        Term::Condition { meta, clause, then_arm, else_arm } => match type_of(*clause, ctx) {
            Err(e) => Err(e),
            Ok(c) => if c != Ty::Single(Type::Bool) {
                Err(TypeError { kind: TypeErrorKind::ConditionNotBool, span: meta })
            } else {
                match type_of(*then_arm, ctx) {
                    Err(e) => Err(e),
                    Ok(t) => match type_of(*else_arm, ctx) {
                        Err(e) => Err(e),
                        Ok(e) => if t == e {
                            Ok(t)
                        } else {
                            Err(TypeError { kind: TypeErrorKind::BranchMismatch, span: meta })
                        },
                    },
                }
            },
        },
        Term::Arithmetic { meta, op, expr } => match type_of(*expr, ctx) {
            Err(e) => Err(e),
            Ok(t) => if t == Ty::Single(Type::Nat) {
                Ok(Ty::Single(Type::Nat))
            } else {
                Err(TypeError { kind: TypeErrorKind::ArithmeticNotNat, span: meta })
            },
        },
        Term::Application { meta, left, right } => match type_of(*left, ctx) {
            Err(e) => Err(e),
            Ok(l) => match type_of(*right, ctx) {
                Err(e) => Err(e),
                Ok(r) => match l {
                    Ty::Arrow(from, to) => if *from == r {
                        Ok(*to)
                    } else {
                        Err(TypeError { kind: TypeErrorKind::ArgumentMismatch, span: meta })
                    },
                    _ => Err(
                        TypeError { kind: TypeErrorKind::ApplicationNotFunction, span: meta },
                    ),
                },
            },
        },
        Term::Abstraction { meta, ident, data_type, body } => match type_of(
            *body,
            ctx.push((ident, data_type)),
        ) {
            Err(e) => Err(e),
            Ok(b) => Ok(Ty::Arrow(Box::new(data_type), Box::new(b))),
        },
        Term::Projection { meta, target, attrib } => match type_of(*target, ctx) {
            Err(e) => Err(e),
            Ok(t) => match t {
                Ty::Record(fields) => if fields.dom().contains(attrib) {
                    Ok(fields[attrib])
                } else {
                    Err(TypeError { kind: TypeErrorKind::MissingField, span: meta })
                },
                _ => Err(TypeError { kind: TypeErrorKind::ProjectionNotRecord, span: meta }),
            },
        },
        Term::Record { meta, records } => match types_of_records(records, ctx) {
            Err(e) => Err(e),
            Ok(types) => Ok(Ty::Record(as_map(types))),
        },
        Term::Matching { meta, to_match, cases } => match type_of(*to_match, ctx) {
            Err(e) => Err(e),
            Ok(t) => match t {
                Ty::Variant(alternatives) => if !covers(cases, alternatives) {
                    Err(TypeError { kind: TypeErrorKind::NonExhaustiveMatch, span: meta })
                } else {
                    match type_of_arms(cases, alternatives, ctx, meta) {
                        Err(e) => Err(e),
                        Ok(Some(arm_type)) => Ok(arm_type),
                        Ok(None) => Err(
                            TypeError { kind: TypeErrorKind::EmptyVariant, span: meta },
                        ),
                    }
                },
                _ => Err(TypeError { kind: TypeErrorKind::MatchNotVariant, span: meta }),
            },
        },
        Term::Tagging { meta, ident, value, data_type } => match type_of(*value, ctx) {
            Err(e) => Err(e),
            Ok(v) => if has_alternative(data_type, ident, v) {
                Ok(data_type)
            } else {
                Err(TypeError { kind: TypeErrorKind::TagMismatch, span: meta })
            },
        },
        Term::Fix { meta, point } => match type_of(*point, ctx) {
            Err(e) => Err(e),
            Ok(p) => match p {
                Ty::Arrow(from, to) => if *from == *to {
                    Ok(*to)
                } else {
                    Err(TypeError { kind: TypeErrorKind::FixAsymmetric, span: meta })
                },
                _ => Err(TypeError { kind: TypeErrorKind::FixNotFunction, span: meta }),
            },
        },
    }
}

/// Whether `t` is a variant type that gives `tag` the type `payload`.
pub open spec fn has_alternative(t: Ty, tag: Name, payload: Ty) -> bool {
    match t {
        Ty::Variant(alternatives) => alternatives.dom().contains(tag) && alternatives[tag]
            == payload,
        _ => false,
    }
}

/// Every alternative of the variant type has a case.
pub open spec fn covers(cases: Seq<(Name, (Name, Term))>, alternatives: Map<Name, Ty>) -> bool {
    forall|tag: Name| #[trigger]
        alternatives.dom().contains(tag) ==> as_map(cases).dom().contains(tag)
}

/// The types of the entries of a record, in order, or the error of the first
/// entry that has none.
pub open spec fn types_of_records(records: Seq<(Name, Term)>, ctx: Context) -> Result<
    Seq<(Name, Ty)>,
    TypeError,
>
    decreases records,
{
    if records.len() == 0 {
        Ok(Seq::empty())
    } else {
        match types_of_records(records.drop_last(), ctx) {
            Err(e) => Err(e),
            Ok(types) => match type_of(records.last().1, ctx) {
                Err(e) => Err(e),
                Ok(t) => Ok(types.push((records.last().0, t))),
            },
        }
    }
}

/// The common type of the arms of a match, taken in order: each case that
/// names an alternative has its arm typed with the case's identifier bound to
/// the alternative's type, and all those arms must have the type of the first.
/// `None` where no case names an alternative. A case that names no
/// alternative is passed over.
pub open spec fn type_of_arms(
    cases: Seq<(Name, (Name, Term))>,
    alternatives: Map<Name, Ty>,
    ctx: Context,
    meta: Span,
) -> Result<Option<Ty>, TypeError>
    decreases cases,
{
    if cases.len() == 0 {
        Ok(None)
    } else {
        match type_of_arms(cases.drop_last(), alternatives, ctx, meta) {
            Err(e) => Err(e),
            Ok(first) => {
                let tag = cases.last().0;
                let ident = cases.last().1.0;
                if !alternatives.dom().contains(tag) {
                    Ok(first)
                } else {
                    match type_of(cases.last().1.1, ctx.push((ident, alternatives[tag]))) {
                        Err(e) => Err(e),
                        Ok(t) => match first {
                            None => Ok(Some(t)),
                            Some(f) => if f == t {
                                Ok(Some(f))
                            } else {
                                Err(TypeError { kind: TypeErrorKind::ArmMismatch, span: meta })
                            },
                        },
                    }
                }
            },
        }
    }
}

/// The context that a table of types stands for.
pub open spec fn context(table: &SymbolTable<TypeAssignment>) -> Context {
    Seq::new(table@.len(), |i: int| (table@[i].0, table@[i].1@))
}

/// What a check returned agrees with what the rules give.
pub open spec fn agrees(got: Result<TypeAssignment, TypeError>, want: Result<Ty, TypeError>) -> bool {
    match got {
        Ok(t) => want == Ok::<Ty, TypeError>(t@),
        Err(e) => want == Err::<Ty, TypeError>(e),
    }
}

/// A copy of the table with one more scope, which binds `name` to `data_type`.
fn extended(table: &SymbolTable<TypeAssignment>, name: &String, data_type: &TypeAssignment) -> (inner:
    SymbolTable<TypeAssignment>)
    ensures
        context(&inner) == context(table).push((name@, data_type@)),
{
    let mut inner = table.clone();
    inner.push(Scope::new(name.clone(), data_type.clone()));
    inner
}

/// Whether every alternative of a variant type has a case.
fn covers_all(
    cases: &Vec<(String, (String, Box<ASTNode>))>,
    alternatives: &Vec<(String, TypeAssignment)>,
) -> (all: bool)
    ensures
        all == covers(case_entries(cases@), as_map(type_entries(alternatives@))),
{
    let ghost cm = as_map(case_entries(cases@));
    let ghost am = as_map(type_entries(alternatives@));
    proof {
        lemma_case_entries(cases@);
        lemma_type_entries(alternatives@);
    }
    let mut i: usize = 0;
    while i < alternatives.len()
        invariant
            i <= alternatives.len(),
            cm == as_map(case_entries(cases@)),
            am == as_map(type_entries(alternatives@)),
            names_of(case_entries(cases@)) == names_in(cases@),
            names_of(type_entries(alternatives@)) == names_in(alternatives@),
            forall|k: int| 0 <= k < i ==> cm.dom().contains(#[trigger] names_in(alternatives@)[k]),
        decreases alternatives.len() - i,
    {
        let tag = alternatives[i].0.as_str();
        proof {
            lemma_as_map(case_entries(cases@), tag@);
        }
        if find_last(cases, tag).is_none() {
            proof {
                lemma_as_map(type_entries(alternatives@), tag@);
                lemma_position_some(names_in(alternatives@), tag@, i as int);
            }
            return false;
        }
        i = i + 1;
    }
    proof {
        assert forall|tag: Name| #[trigger] am.dom().contains(tag) implies cm.dom().contains(
            tag,
        ) by {
            lemma_as_map(type_entries(alternatives@), tag);
            lemma_position(names_in(alternatives@), tag);
        }
    }
    true
}

impl ASTNode {
    /// Checks the tree under no bindings and gives its type, or the first
    /// type error that the rules meet.
    pub fn check(&self) -> (checked: Result<TypeAssignment, TypeError>)
        ensures
            agrees(checked, type_of(self@, Seq::empty())),
    {
        let table = SymbolTable::new();
        assert(context(&table) =~= Seq::empty());
        self.check_node(&table)
    }

    /// Checks the tree under the bindings of `table`.
    pub fn check_node(&self, table: &SymbolTable<TypeAssignment>) -> (checked: Result<
        TypeAssignment,
        TypeError,
    >)
        ensures
            agrees(checked, type_of(self@, context(table))),
        decreases self,
    {
        match self {
            ASTNode::ValueNode { meta, value } => match value {
                Value::True => Ok(TypeAssignment::Single(Type::Bool)),
                Value::False => Ok(TypeAssignment::Single(Type::Bool)),
                Value::Zero => Ok(TypeAssignment::Single(Type::Nat)),
            },
            ASTNode::IsZeroNode { meta, expr } => match expr.check_node(table) {
                Err(e) => Err(e),
                Ok(t) => match t {
                    TypeAssignment::Single(Type::Nat) => Ok(TypeAssignment::Single(Type::Bool)),
                    _ => Err(TypeError { kind: TypeErrorKind::ZeroCheckNotNat, span: *meta }),
                },
            },
            ASTNode::IdentifierNode { meta, name } => {
                proof {
                    lemma_innermost_map(
                        table@,
                        context(table),
                        |t: TypeAssignment| t@,
                        name@,
                    );
                }
                match table.lookup(name.as_str()) {
                    Some(t) => Ok(t.clone()),
                    None => Err(
                        TypeError { kind: TypeErrorKind::UndefinedIdentifier, span: *meta },
                    ),
                }
            },
            ASTNode::ConditionNode { meta, clause, then_arm, else_arm } => {
                let clause_type = match clause.check_node(table) {
                    Err(e) => { return Err(e); },
                    Ok(t) => t,
                };
                match clause_type {
                    TypeAssignment::Single(Type::Bool) => {},
                    _ => {
                        return Err(
                            TypeError { kind: TypeErrorKind::ConditionNotBool, span: *meta },
                        );
                    },
                }
                let then_type = match then_arm.check_node(table) {
                    Err(e) => { return Err(e); },
                    Ok(t) => t,
                };
                let else_type = match else_arm.check_node(table) {
                    Err(e) => { return Err(e); },
                    Ok(t) => t,
                };
                if then_type != else_type {
                    return Err(TypeError { kind: TypeErrorKind::BranchMismatch, span: *meta });
                }
                Ok(then_type)
            },
            ASTNode::ArithmeticNode { meta, op, expr } => match expr.check_node(table) {
                Err(e) => Err(e),
                Ok(t) => match t {
                    TypeAssignment::Single(Type::Nat) => Ok(TypeAssignment::Single(Type::Nat)),
                    _ => Err(TypeError { kind: TypeErrorKind::ArithmeticNotNat, span: *meta }),
                },
            },
            ASTNode::ApplicationNode { meta, left, right } => {
                let left_type = match left.check_node(table) {
                    Err(e) => { return Err(e); },
                    Ok(t) => t,
                };
                let right_type = match right.check_node(table) {
                    Err(e) => { return Err(e); },
                    Ok(t) => t,
                };
                match left_type {
                    TypeAssignment::Arrow(first, second) => {
                        if *first == right_type {
                            Ok(*second)
                        } else {
                            Err(TypeError { kind: TypeErrorKind::ArgumentMismatch, span: *meta })
                        }
                    },
                    _ => Err(
                        TypeError { kind: TypeErrorKind::ApplicationNotFunction, span: *meta },
                    ),
                }
            },
            ASTNode::AbstractionNode { meta, ident, data_type, body } => {
                let inner = extended(table, ident, data_type);
                match body.check_node(&inner) {
                    Err(e) => Err(e),
                    Ok(body_type) => Ok(
                        TypeAssignment::Arrow(Box::new(data_type.clone()), Box::new(body_type)),
                    ),
                }
            },
            ASTNode::ProjectionNode { meta, target, attrib } => match target.check_node(table) {
                Err(e) => Err(e),
                Ok(t) => match t {
                    TypeAssignment::Record(types) => match find_type(&types, attrib.as_str()) {
                        Some(attrib_type) => Ok(attrib_type.clone()),
                        None => Err(TypeError { kind: TypeErrorKind::MissingField, span: *meta }),
                    },
                    _ => Err(
                        TypeError { kind: TypeErrorKind::ProjectionNotRecord, span: *meta },
                    ),
                },
            },
            ASTNode::RecordNode { meta, records } => match check_records(records, table) {
                Err(e) => Err(e),
                Ok(types) => Ok(TypeAssignment::Record(types)),
            },
            ASTNode::MatchingNode { meta, to_match, cases } => match to_match.check_node(table) {
                Err(e) => Err(e),
                Ok(t) => match t {
                    TypeAssignment::Variant(variant) => {
                        if !covers_all(cases, &variant) {
                            return Err(
                                TypeError { kind: TypeErrorKind::NonExhaustiveMatch, span: *meta },
                            );
                        }
                        match check_arms(cases, &variant, table, *meta) {
                            Err(e) => Err(e),
                            Ok(Some(arm_type)) => Ok(arm_type),
                            Ok(None) => Err(
                                TypeError { kind: TypeErrorKind::EmptyVariant, span: *meta },
                            ),
                        }
                    },
                    _ => Err(TypeError { kind: TypeErrorKind::MatchNotVariant, span: *meta }),
                },
            },
            ASTNode::TaggingNode { meta, ident, value, data_type } => {
                match value.check_node(table) {
                    Err(e) => Err(e),
                    Ok(value_type) => {
                        if data_type.has_variant(ident.as_str(), value_type) {
                            Ok(data_type.clone())
                        } else {
                            Err(TypeError { kind: TypeErrorKind::TagMismatch, span: *meta })
                        }
                    },
                }
            },
            ASTNode::FixNode { meta, point } => match point.check_node(table) {
                Err(e) => Err(e),
                Ok(t) => match t {
                    TypeAssignment::Arrow(from, to) => {
                        if *from == *to {
                            Ok(*to)
                        } else {
                            Err(TypeError { kind: TypeErrorKind::FixAsymmetric, span: *meta })
                        }
                    },
                    _ => Err(TypeError { kind: TypeErrorKind::FixNotFunction, span: *meta }),
                },
            },
        }
    }
}

/// Checks the entries of a record in order.
fn check_records(records: &Vec<(String, ASTNode)>, table: &SymbolTable<TypeAssignment>) -> (checked:
    Result<Vec<(String, TypeAssignment)>, TypeError>)
    ensures
        match checked {
            Ok(types) => types_of_records(record_entries(records@), context(table)) == Ok::<
                Seq<(Name, Ty)>,
                TypeError,
            >(type_entries(types@)),
            Err(e) => types_of_records(record_entries(records@), context(table)) == Err::<
                Seq<(Name, Ty)>,
                TypeError,
            >(e),
        },
    decreases records,
{
    let ghost entries = record_entries(records@);
    let ghost ctx = context(table);
    proof {
        lemma_record_entries(records@);
    }
    let mut types: Vec<(String, TypeAssignment)> = Vec::new();
    let mut i: usize = 0;
    while i < records.len()
        invariant
            i <= records.len(),
            entries == record_entries(records@),
            entries.len() == records.len(),
            ctx == context(table),
            forall|k: int|
                0 <= k < records.len() ==> #[trigger] entries[k] == (
                    records@[k].0@,
                    records@[k].1@,
                ),
            types_of_records(entries.take(i as int), ctx) == Ok::<Seq<(Name, Ty)>, TypeError>(
                type_entries(types@),
            ),
        decreases records.len() - i,
    {
        assert(entries.take(i + 1).drop_last() == entries.take(i as int));
        match records[i].1.check_node(table) {
            Err(e) => {
                proof {
                    lemma_records_error(entries, ctx, i + 1);
                }
                return Err(e);
            },
            Ok(t) => {
                let ghost before = types@;
                types.push((records[i].0.clone(), t));
                assert(types@.drop_last() == before);
            },
        }
        i = i + 1;
    }
    assert(entries.take(i as int) == entries);
    Ok(types)
}

/// An error among the first entries of a record is the error of the record.
pub proof fn lemma_records_error(records: Seq<(Name, Term)>, ctx: Context, n: int)
    requires
        0 <= n <= records.len(),
        types_of_records(records.take(n), ctx) is Err,
    ensures
        types_of_records(records, ctx) == types_of_records(records.take(n), ctx),
    decreases records.len(),
{
    if n < records.len() {
        assert(records.drop_last().take(n) == records.take(n));
        lemma_records_error(records.drop_last(), ctx, n);
    } else {
        assert(records.take(n) == records);
    }
}

/// An error among the arms of the first cases is the error of all arms.
pub proof fn lemma_arms_error(
    cases: Seq<(Name, (Name, Term))>,
    alternatives: Map<Name, Ty>,
    ctx: Context,
    meta: Span,
    n: int,
)
    requires
        0 <= n <= cases.len(),
        type_of_arms(cases.take(n), alternatives, ctx, meta) is Err,
    ensures
        type_of_arms(cases, alternatives, ctx, meta) == type_of_arms(
            cases.take(n),
            alternatives,
            ctx,
            meta,
        ),
    decreases cases.len(),
{
    if n < cases.len() {
        assert(cases.drop_last().take(n) == cases.take(n));
        lemma_arms_error(cases.drop_last(), alternatives, ctx, meta, n);
    } else {
        assert(cases.take(n) == cases);
    }
}

/// Checks the arms of a match in the order of its cases.
fn check_arms(
    cases: &Vec<(String, (String, Box<ASTNode>))>,
    alternatives: &Vec<(String, TypeAssignment)>,
    table: &SymbolTable<TypeAssignment>,
    meta: Span,
) -> (checked: Result<Option<TypeAssignment>, TypeError>)
    ensures
        ({
            let want = type_of_arms(
                case_entries(cases@),
                as_map(type_entries(alternatives@)),
                context(table),
                meta,
            );
            match checked {
                Ok(Some(t)) => want == Ok::<Option<Ty>, TypeError>(Some(t@)),
                Ok(None) => want == Ok::<Option<Ty>, TypeError>(None),
                Err(e) => want == Err::<Option<Ty>, TypeError>(e),
            }
        }),
    decreases cases,
{
    let ghost entries = case_entries(cases@);
    let ghost am = as_map(type_entries(alternatives@));
    let ghost ctx = context(table);
    proof {
        lemma_case_entries(cases@);
    }
    let mut first: Option<TypeAssignment> = None;
    let mut i: usize = 0;
    while i < cases.len()
        invariant
            i <= cases.len(),
            entries == case_entries(cases@),
            entries.len() == cases.len(),
            am == as_map(type_entries(alternatives@)),
            ctx == context(table),
            forall|k: int|
                0 <= k < cases.len() ==> #[trigger] entries[k] == (
                    cases@[k].0@,
                    (cases@[k].1.0@, cases@[k].1.1@),
                ),
            match first {
                Some(t) => type_of_arms(entries.take(i as int), am, ctx, meta) == Ok::<
                    Option<Ty>,
                    TypeError,
                >(Some(t@)),
                None => type_of_arms(entries.take(i as int), am, ctx, meta) == Ok::<
                    Option<Ty>,
                    TypeError,
                >(None),
            },
        decreases cases.len() - i,
    {
        assert(entries.take(i + 1).drop_last() == entries.take(i as int));
        if let Some(payload) = find_type(alternatives, cases[i].0.as_str()) {
            let inner = extended(table, &cases[i].1.0, payload);
            match cases[i].1.1.check_node(&inner) {
                Err(e) => {
                    proof {
                        lemma_arms_error(entries, am, ctx, meta, i + 1);
                    }
                    return Err(e);
                },
                Ok(t) => {
                    match first {
                        None => {
                            first = Some(t);
                        },
                        Some(f) => {
                            if f != t {
                                proof {
                                    lemma_arms_error(entries, am, ctx, meta, i + 1);
                                }
                                return Err(
                                    TypeError { kind: TypeErrorKind::ArmMismatch, span: meta },
                                );
                            }
                            first = Some(f);
                        },
                    }
                },
            }
        }
        i = i + 1;
    }
    assert(entries.take(i as int) == entries);
    Ok(first)
}

} // verus!
