//! The syntax tree, the types that the checker assigns, and their
//! mathematical models.

use crate::assoc::{
    as_map, find_last, lemma_as_map, lemma_position, lemma_position_some, names_in, names_of,
};
use vstd::prelude::*;

verus! {

/// A name as contracts see it: the characters of an identifier.
pub type Name = Seq<char>;

/// The literal constants of the language.
#[derive(Debug, Clone, Copy, PartialEq, Eq, Structural)]
pub enum Value {
    True,
    False,
    Zero,
}

/// The arithmetic operators on naturals.
#[derive(Debug, Clone, Copy, PartialEq, Eq, Structural)]
pub enum Operator {
    Succ,
    Pred,
}

/// The base types.
#[derive(Debug, Clone, Copy, PartialEq, Eq, Structural)]
pub enum Type {
    Bool,
    Nat,
}

/// The stretch of source text that a node was built from, as byte offsets.
#[derive(Debug, Clone, Copy, PartialEq, Eq, Structural)]
pub struct Span {
    pub start: usize,
    pub end: usize,
}

/// A type as the checker assigns it. The entries of a record or variant type
/// act as a mapping from names to types: where a name occurs twice, the later
/// entry counts.
#[derive(Debug)]
pub enum TypeAssignment {
    Single(Type),
    Arrow(Box<TypeAssignment>, Box<TypeAssignment>),
    Record(Vec<(String, TypeAssignment)>),
    Variant(Vec<(String, TypeAssignment)>),
}

/// The model of a type: equality on it is structural equality of types, with
/// records and variants compared as unordered mappings.
pub ghost enum Ty {
    Single(Type),
    Arrow(Box<Ty>, Box<Ty>),
    Record(Map<Name, Ty>),
    Variant(Map<Name, Ty>),
}

/// The models of the entries of a record or variant type, in order.
pub open spec fn type_entries(entries: Seq<(String, TypeAssignment)>) -> Seq<(Name, Ty)>
    decreases entries,
{
    if entries.len() == 0 {
        Seq::empty()
    } else {
        type_entries(entries.drop_last()).push((entries.last().0@, entries.last().1.model()))
    }
}

impl TypeAssignment {
    /// The model of this type.
    pub open spec fn model(&self) -> Ty
        decreases self,
    {
        match self {
            TypeAssignment::Single(t) => Ty::Single(*t),
            TypeAssignment::Arrow(from, to) => Ty::Arrow(
                Box::new(from.model()),
                Box::new(to.model()),
            ),
            TypeAssignment::Record(entries) => Ty::Record(as_map(type_entries(entries@))),
            TypeAssignment::Variant(entries) => Ty::Variant(as_map(type_entries(entries@))),
        }
    }
}

impl View for TypeAssignment {
    type V = Ty;

    open spec fn view(&self) -> Ty {
        self.model()
    }
}

/// The models of the entries of a type stand at the same places, under the
/// same names.
pub proof fn lemma_type_entries(entries: Seq<(String, TypeAssignment)>)
    ensures
        type_entries(entries).len() == entries.len(),
        forall|i: int|
            0 <= i < entries.len() ==> #[trigger] type_entries(entries)[i] == (
                entries[i].0@,
                entries[i].1@,
            ),
        names_of(type_entries(entries)) == names_in(entries),
    decreases entries.len(),
{
    if entries.len() > 0 {
        lemma_type_entries(entries.drop_last());
    }
}

/// The type that a sequence of type entries gives to `name`.
pub open spec fn entry_type(entries: Seq<(String, TypeAssignment)>, name: Name) -> Option<Ty> {
    if as_map(type_entries(entries)).dom().contains(name) {
        Some(as_map(type_entries(entries))[name])
    } else {
        None
    }
}

/// Looks `name` up among the entries of a record or variant type.
pub fn find_type<'a>(entries: &'a Vec<(String, TypeAssignment)>, name: &str) -> (found: Option<
    &'a TypeAssignment,
>)
    ensures
        match found {
            Some(t) => entry_type(entries@, name@) == Some(t@),
            None => entry_type(entries@, name@) is None,
        },
{
    proof {
        lemma_type_entries(entries@);
        lemma_as_map(type_entries(entries@), name@);
    }
    match find_last(entries, name) {
        Some(i) => Some(&entries[i].1),
        None => None,
    }
}

/// Whether two sequences of type entries stand for the same mapping.
fn same_entries(left: &Vec<(String, TypeAssignment)>, right: &Vec<(String, TypeAssignment)>) -> (same:
    bool)
    ensures
        same == (as_map(type_entries(left@)) == as_map(type_entries(right@))),
    decreases left, 0nat,
{
    let ghost lm = as_map(type_entries(left@));
    let ghost rm = as_map(type_entries(right@));
    proof {
        lemma_type_entries(left@);
        lemma_type_entries(right@);
    }
    let mut i: usize = 0;
    while i < left.len()
        invariant
            i <= left.len(),
            lm == as_map(type_entries(left@)),
            rm == as_map(type_entries(right@)),
            forall|k: int|
                0 <= k < i ==> rm.dom().contains(#[trigger] names_in(left@)[k]) && rm[names_in(
                    left@,
                )[k]] == lm[names_in(left@)[k]],
        decreases left.len() - i,
    {
        let name = left[i].0.as_str();
        let mine = find_type(left, name);
        let theirs = find_type(right, name);
        match (mine, theirs) {
            (Some(a), Some(b)) => {
                proof {
                    lemma_type_entries(left@);
                    lemma_as_map(type_entries(left@), name@);
                    lemma_position(names_in(left@), name@);
                }
                let at = find_last(left, name);
                let at = at.unwrap();
                if !left[at].1.eq(b) {
                    return false;
                }
            },
            _ => {
                proof {
                    lemma_type_entries(left@);
                    lemma_as_map(type_entries(left@), name@);
                    lemma_position(names_in(left@), name@);
                    lemma_position_some(names_in(left@), name@, i as int);
                }
                return false;
            },
        }
        i = i + 1;
    }
    let mut j: usize = 0;
    while j < right.len()
        invariant
            j <= right.len(),
            lm == as_map(type_entries(left@)),
            rm == as_map(type_entries(right@)),
            forall|k: int| 0 <= k < j ==> lm.dom().contains(#[trigger] names_in(right@)[k]),
        decreases right.len() - j,
    {
        let name = right[j].0.as_str();
        if find_type(left, name).is_none() {
            proof {
                lemma_type_entries(right@);
                lemma_as_map(type_entries(right@), name@);
                lemma_position_some(names_in(right@), name@, j as int);
            }
            return false;
        }
        j = j + 1;
    }
    proof {
        assert forall|name: Name| lm.dom().contains(name) <==> rm.dom().contains(name) by {
            lemma_as_map(type_entries(left@), name);
            lemma_as_map(type_entries(right@), name);
            lemma_position(names_in(left@), name);
            lemma_position(names_in(right@), name);
        }
        assert forall|name: Name| lm.dom().contains(name) implies lm[name] == rm[name] by {
            lemma_as_map(type_entries(left@), name);
            lemma_position(names_in(left@), name);
        }
        assert(lm =~= rm);
    }
    true
}

/// Copies the entries of a record or variant type.
fn clone_type_entries(entries: &Vec<(String, TypeAssignment)>) -> (copy: Vec<
    (String, TypeAssignment),
>)
    ensures
        type_entries(copy@) == type_entries(entries@),
    decreases entries, 0nat,
{
    let mut copy: Vec<(String, TypeAssignment)> = Vec::new();
    let mut i: usize = 0;
    while i < entries.len()
        invariant
            i <= entries.len(),
            copy.len() == i,
            forall|k: int|
                0 <= k < i ==> (#[trigger] copy@[k]).0@ == entries@[k].0@ && copy@[k].1@
                    == entries@[k].1@,
        decreases entries.len() - i,
    {
        copy.push((entries[i].0.clone(), entries[i].1.clone()));
        i = i + 1;
    }
    proof {
        lemma_type_entries(copy@);
        lemma_type_entries(entries@);
    }
    copy
}

impl Clone for TypeAssignment {
    fn clone(&self) -> (copy: Self)
        ensures
            copy@ == self@,
        decreases self, 1nat,
    {
        match self {
            TypeAssignment::Single(t) => TypeAssignment::Single(*t),
            TypeAssignment::Arrow(from, to) => TypeAssignment::Arrow(
                Box::new((**from).clone()),
                Box::new((**to).clone()),
            ),
            TypeAssignment::Record(entries) => TypeAssignment::Record(clone_type_entries(entries)),
            TypeAssignment::Variant(entries) => TypeAssignment::Variant(
                clone_type_entries(entries),
            ),
        }
    }
}

impl TypeAssignment {
    /// Whether this is a variant type that gives `ident` the type `data_type`.
    pub fn has_variant(&self, ident: &str, data_type: TypeAssignment) -> (has: bool)
        ensures
            has == match self@ {
                Ty::Variant(alternatives) => alternatives.dom().contains(ident@)
                    && alternatives[ident@] == data_type@,
                _ => false,
            },
    {
        match self {
            TypeAssignment::Variant(variants) => {
                if let Some(value) = find_type(variants, ident) {
                    *value == data_type
                } else {
                    false
                }
            },
            _ => false,
        }
    }
}

impl PartialEq for TypeAssignment {
    /// Structural equality: the same shape with equal parts, the entries of
    /// records and variants compared as mappings.
    fn eq(&self, other: &Self) -> (same: bool)
        decreases self, 1nat,
    {
        match (self, other) {
            (TypeAssignment::Single(a), TypeAssignment::Single(b)) => *a == *b,
            (TypeAssignment::Arrow(a1, b1), TypeAssignment::Arrow(a2, b2)) => {
                (**a1).eq(&**a2) && (**b1).eq(&**b2)
            },
            (TypeAssignment::Record(a), TypeAssignment::Record(b)) => same_entries(a, b),
            (TypeAssignment::Variant(a), TypeAssignment::Variant(b)) => same_entries(a, b),
            _ => false,
        }
    }
}

impl vstd::std_specs::cmp::PartialEqSpecImpl for TypeAssignment {
    open spec fn obeys_eq_spec() -> bool {
        true
    }

    open spec fn eq_spec(&self, other: &Self) -> bool {
        self@ == other@
    }
}

/// A node of the syntax tree. Each node owns its children. The entries of a
/// record, and the cases of a match, act as a mapping from names: where a
/// name occurs twice, the later entry counts.
#[derive(Debug)]
#[allow(inconsistent_fields)]
pub enum ASTNode {
    AbstractionNode { meta: Span, ident: String, data_type: TypeAssignment, body: Box<ASTNode> },
    ApplicationNode { meta: Span, left: Box<ASTNode>, right: Box<ASTNode> },
    IdentifierNode { meta: Span, name: String },
    ConditionNode {
        meta: Span,
        clause: Box<ASTNode>,
        then_arm: Box<ASTNode>,
        else_arm: Box<ASTNode>,
    },
    ArithmeticNode { meta: Span, op: Operator, expr: Box<ASTNode> },
    IsZeroNode { meta: Span, expr: Box<ASTNode> },
    ValueNode { meta: Span, value: Value },
    ProjectionNode { meta: Span, target: Box<ASTNode>, attrib: String },
    RecordNode { meta: Span, records: Vec<(String, ASTNode)> },
    MatchingNode {
        meta: Span,
        to_match: Box<ASTNode>,
        cases: Vec<(String, (String, Box<ASTNode>))>,
    },
    TaggingNode { meta: Span, ident: String, value: Box<ASTNode>, data_type: TypeAssignment },
    FixNode { meta: Span, point: Box<ASTNode> },
}

/// The model of a syntax tree.
#[allow(inconsistent_fields)]
pub ghost enum Term {
    Abstraction { meta: Span, ident: Name, data_type: Ty, body: Box<Term> },
    Application { meta: Span, left: Box<Term>, right: Box<Term> },
    Identifier { meta: Span, name: Name },
    Condition { meta: Span, clause: Box<Term>, then_arm: Box<Term>, else_arm: Box<Term> },
    Arithmetic { meta: Span, op: Operator, expr: Box<Term> },
    IsZero { meta: Span, expr: Box<Term> },
    Literal { meta: Span, value: Value },
    Projection { meta: Span, target: Box<Term>, attrib: Name },
    Record { meta: Span, records: Seq<(Name, Term)> },
    Matching { meta: Span, to_match: Box<Term>, cases: Seq<(Name, (Name, Term))> },
    Tagging { meta: Span, ident: Name, value: Box<Term>, data_type: Ty },
    Fix { meta: Span, point: Box<Term> },
}

/// The models of the entries of a record node, in order.
pub open spec fn record_entries(entries: Seq<(String, ASTNode)>) -> Seq<(Name, Term)>
    decreases entries,
{
    if entries.len() == 0 {
        Seq::empty()
    } else {
        record_entries(entries.drop_last()).push((entries.last().0@, entries.last().1.model()))
    }
}

/// The models of the cases of a match, in order.
pub open spec fn case_entries(cases: Seq<(String, (String, Box<ASTNode>))>) -> Seq<
    (Name, (Name, Term)),
>
    decreases cases,
{
    if cases.len() == 0 {
        Seq::empty()
    } else {
        case_entries(cases.drop_last()).push(
            (cases.last().0@, (cases.last().1.0@, cases.last().1.1.model())),
        )
    }
}

/// The models of the entries of a record node stand at the same places,
/// under the same names.
pub proof fn lemma_record_entries(entries: Seq<(String, ASTNode)>)
    ensures
        record_entries(entries).len() == entries.len(),
        forall|i: int|
            0 <= i < entries.len() ==> #[trigger] record_entries(entries)[i] == (
                entries[i].0@,
                entries[i].1@,
            ),
        names_of(record_entries(entries)) == names_in(entries),
    decreases entries.len(),
{
    if entries.len() > 0 {
        lemma_record_entries(entries.drop_last());
    }
}

/// The models of the cases of a match stand at the same places, under the
/// same names.
pub proof fn lemma_case_entries(cases: Seq<(String, (String, Box<ASTNode>))>)
    ensures
        case_entries(cases).len() == cases.len(),
        forall|i: int|
            0 <= i < cases.len() ==> #[trigger] case_entries(cases)[i] == (
                cases[i].0@,
                (cases[i].1.0@, cases[i].1.1@),
            ),
        names_of(case_entries(cases)) == names_in(cases),
    decreases cases.len(),
{
    if cases.len() > 0 {
        lemma_case_entries(cases.drop_last());
    }
}

impl ASTNode {
    /// The model of this tree.
    pub open spec fn model(&self) -> Term
        decreases self,
    {
        match self {
            ASTNode::AbstractionNode { meta, ident, data_type, body } => Term::Abstraction {
                meta: *meta,
                ident: ident@,
                data_type: data_type@,
                body: Box::new(body.model()),
            },
            ASTNode::ApplicationNode { meta, left, right } => Term::Application {
                meta: *meta,
                left: Box::new(left.model()),
                right: Box::new(right.model()),
            },
            ASTNode::IdentifierNode { meta, name } => Term::Identifier { meta: *meta, name: name@ },
            ASTNode::ConditionNode { meta, clause, then_arm, else_arm } => Term::Condition {
                meta: *meta,
                clause: Box::new(clause.model()),
                then_arm: Box::new(then_arm.model()),
                else_arm: Box::new(else_arm.model()),
            },
            ASTNode::ArithmeticNode { meta, op, expr } => Term::Arithmetic {
                meta: *meta,
                op: *op,
                expr: Box::new(expr.model()),
            },
            ASTNode::IsZeroNode { meta, expr } => Term::IsZero {
                meta: *meta,
                expr: Box::new(expr.model()),
            },
            ASTNode::ValueNode { meta, value } => Term::Literal { meta: *meta, value: *value },
            ASTNode::ProjectionNode { meta, target, attrib } => Term::Projection {
                meta: *meta,
                target: Box::new(target.model()),
                attrib: attrib@,
            },
            ASTNode::RecordNode { meta, records } => Term::Record {
                meta: *meta,
                records: record_entries(records@),
            },
            ASTNode::MatchingNode { meta, to_match, cases } => Term::Matching {
                meta: *meta,
                to_match: Box::new(to_match.model()),
                cases: case_entries(cases@),
            },
            ASTNode::TaggingNode { meta, ident, value, data_type } => Term::Tagging {
                meta: *meta,
                ident: ident@,
                value: Box::new(value.model()),
                data_type: data_type@,
            },
            ASTNode::FixNode { meta, point } => Term::Fix {
                meta: *meta,
                point: Box::new(point.model()),
            },
        }
    }
}

/// Copies the entries of a record node.
fn clone_records(records: &Vec<(String, ASTNode)>) -> (copy: Vec<(String, ASTNode)>)
    ensures
        record_entries(copy@) == record_entries(records@),
    decreases records, 0nat,
{
    let mut copy: Vec<(String, ASTNode)> = Vec::new();
    let mut i: usize = 0;
    while i < records.len()
        invariant
            i <= records.len(),
            copy.len() == i,
            forall|k: int|
                0 <= k < i ==> (#[trigger] copy@[k]).0@ == records@[k].0@ && copy@[k].1@
                    == records@[k].1@,
        decreases records.len() - i,
    {
        copy.push((records[i].0.clone(), records[i].1.clone()));
        i = i + 1;
    }
    proof {
        lemma_record_entries(copy@);
        lemma_record_entries(records@);
    }
    copy
}

/// Copies the cases of a match.
fn clone_cases(cases: &Vec<(String, (String, Box<ASTNode>))>) -> (copy: Vec<
    (String, (String, Box<ASTNode>)),
>)
    ensures
        case_entries(copy@) == case_entries(cases@),
    decreases cases, 0nat,
{
    let mut copy: Vec<(String, (String, Box<ASTNode>))> = Vec::new();
    let mut i: usize = 0;
    while i < cases.len()
        invariant
            i <= cases.len(),
            copy.len() == i,
            forall|k: int|
                0 <= k < i ==> (#[trigger] copy@[k]).0@ == cases@[k].0@ && copy@[k].1.0@
                    == cases@[k].1.0@ && copy@[k].1.1@ == cases@[k].1.1@,
        decreases cases.len() - i,
    {
        let arm = (*cases[i].1.1).clone();
        copy.push((cases[i].0.clone(), (cases[i].1.0.clone(), Box::new(arm))));
        i = i + 1;
    }
    proof {
        lemma_case_entries(copy@);
        lemma_case_entries(cases@);
    }
    copy
}

impl Clone for ASTNode {
    fn clone(&self) -> (copy: Self)
        ensures
            copy@ == self@,
        decreases self, 1nat,
    {
        match self {
            ASTNode::AbstractionNode { meta, ident, data_type, body } => ASTNode::AbstractionNode {
                meta: *meta,
                ident: ident.clone(),
                data_type: data_type.clone(),
                body: Box::new((**body).clone()),
            },
            ASTNode::ApplicationNode { meta, left, right } => ASTNode::ApplicationNode {
                meta: *meta,
                left: Box::new((**left).clone()),
                right: Box::new((**right).clone()),
            },
            ASTNode::IdentifierNode { meta, name } => ASTNode::IdentifierNode {
                meta: *meta,
                name: name.clone(),
            },
            ASTNode::ConditionNode { meta, clause, then_arm, else_arm } => ASTNode::ConditionNode {
                meta: *meta,
                clause: Box::new((**clause).clone()),
                then_arm: Box::new((**then_arm).clone()),
                else_arm: Box::new((**else_arm).clone()),
            },
            ASTNode::ArithmeticNode { meta, op, expr } => ASTNode::ArithmeticNode {
                meta: *meta,
                op: *op,
                expr: Box::new((**expr).clone()),
            },
            ASTNode::IsZeroNode { meta, expr } => ASTNode::IsZeroNode {
                meta: *meta,
                expr: Box::new((**expr).clone()),
            },
            ASTNode::ValueNode { meta, value } => ASTNode::ValueNode { meta: *meta, value: *value },
            ASTNode::ProjectionNode { meta, target, attrib } => ASTNode::ProjectionNode {
                meta: *meta,
                target: Box::new((**target).clone()),
                attrib: attrib.clone(),
            },
            ASTNode::RecordNode { meta, records } => ASTNode::RecordNode {
                meta: *meta,
                records: clone_records(records),
            },
            ASTNode::MatchingNode { meta, to_match, cases } => ASTNode::MatchingNode {
                meta: *meta,
                to_match: Box::new((**to_match).clone()),
                cases: clone_cases(cases),
            },
            ASTNode::TaggingNode { meta, ident, value, data_type } => ASTNode::TaggingNode {
                meta: *meta,
                ident: ident.clone(),
                value: Box::new((**value).clone()),
                data_type: data_type.clone(),
            },
            ASTNode::FixNode { meta, point } => ASTNode::FixNode {
                meta: *meta,
                point: Box::new((**point).clone()),
            },
        }
    }
}

/// Whether two sequences of record entries are alike, entry by entry.
fn same_records(left: &Vec<(String, ASTNode)>, right: &Vec<(String, ASTNode)>) -> (same: bool)
    ensures
        same == (record_entries(left@) == record_entries(right@)),
    decreases left, 0nat,
{
    proof {
        lemma_record_entries(left@);
        lemma_record_entries(right@);
    }
    if left.len() != right.len() {
        return false;
    }
    let mut i: usize = 0;
    while i < left.len()
        invariant
            i <= left.len(),
            left.len() == right.len(),
            forall|k: int|
                0 <= k < i ==> #[trigger] record_entries(left@)[k] == record_entries(right@)[k],
        decreases left.len() - i,
    {
        proof {
            lemma_record_entries(left@);
            lemma_record_entries(right@);
        }
        if !(left[i].0 == right[i].0 && left[i].1.eq(&right[i].1)) {
            assert(record_entries(left@)[i as int] != record_entries(right@)[i as int]);
            return false;
        }
        i = i + 1;
    }
    assert(record_entries(left@) =~= record_entries(right@));
    true
}

/// Whether two sequences of cases are alike, case by case.
fn same_cases(
    left: &Vec<(String, (String, Box<ASTNode>))>,
    right: &Vec<(String, (String, Box<ASTNode>))>,
) -> (same: bool)
    ensures
        same == (case_entries(left@) == case_entries(right@)),
    decreases left, 0nat,
{
    proof {
        lemma_case_entries(left@);
        lemma_case_entries(right@);
    }
    if left.len() != right.len() {
        return false;
    }
    let mut i: usize = 0;
    while i < left.len()
        invariant
            i <= left.len(),
            left.len() == right.len(),
            forall|k: int|
                0 <= k < i ==> #[trigger] case_entries(left@)[k] == case_entries(right@)[k],
        decreases left.len() - i,
    {
        proof {
            lemma_case_entries(left@);
            lemma_case_entries(right@);
        }
        if !(left[i].0 == right[i].0 && left[i].1.0 == right[i].1.0 && (*left[i].1.1).eq(
            &*right[i].1.1,
        )) {
            assert(case_entries(left@)[i as int] != case_entries(right@)[i as int]);
            return false;
        }
        i = i + 1;
    }
    assert(case_entries(left@) =~= case_entries(right@));
    true
}

impl PartialEq for ASTNode {
    /// Two trees are equal where they have the same shape, node by node, with
    /// equal spans, names and types.
    fn eq(&self, other: &Self) -> (same: bool)
        decreases self, 1nat,
    {
        match (self, other) {
            (
                ASTNode::AbstractionNode { meta: m1, ident: i1, data_type: t1, body: b1 },
                ASTNode::AbstractionNode { meta: m2, ident: i2, data_type: t2, body: b2 },
            ) => *m1 == *m2 && *i1 == *i2 && *t1 == *t2 && (**b1).eq(&**b2),
            (
                ASTNode::ApplicationNode { meta: m1, left: l1, right: r1 },
                ASTNode::ApplicationNode { meta: m2, left: l2, right: r2 },
            ) => *m1 == *m2 && (**l1).eq(&**l2) && (**r1).eq(&**r2),
            (
                ASTNode::IdentifierNode { meta: m1, name: n1 },
                ASTNode::IdentifierNode { meta: m2, name: n2 },
            ) => *m1 == *m2 && *n1 == *n2,
            (
                ASTNode::ConditionNode { meta: m1, clause: c1, then_arm: t1, else_arm: e1 },
                ASTNode::ConditionNode { meta: m2, clause: c2, then_arm: t2, else_arm: e2 },
            ) => *m1 == *m2 && (**c1).eq(&**c2) && (**t1).eq(&**t2) && (**e1).eq(&**e2),
            (
                ASTNode::ArithmeticNode { meta: m1, op: o1, expr: e1 },
                ASTNode::ArithmeticNode { meta: m2, op: o2, expr: e2 },
            ) => *m1 == *m2 && *o1 == *o2 && (**e1).eq(&**e2),
            (
                ASTNode::IsZeroNode { meta: m1, expr: e1 },
                ASTNode::IsZeroNode { meta: m2, expr: e2 },
            ) => *m1 == *m2 && (**e1).eq(&**e2),
            (
                ASTNode::ValueNode { meta: m1, value: v1 },
                ASTNode::ValueNode { meta: m2, value: v2 },
            ) => *m1 == *m2 && *v1 == *v2,
            (
                ASTNode::ProjectionNode { meta: m1, target: t1, attrib: a1 },
                ASTNode::ProjectionNode { meta: m2, target: t2, attrib: a2 },
            ) => *m1 == *m2 && (**t1).eq(&**t2) && *a1 == *a2,
            (
                ASTNode::RecordNode { meta: m1, records: r1 },
                ASTNode::RecordNode { meta: m2, records: r2 },
            ) => *m1 == *m2 && same_records(r1, r2),
            (
                ASTNode::MatchingNode { meta: m1, to_match: t1, cases: c1 },
                ASTNode::MatchingNode { meta: m2, to_match: t2, cases: c2 },
            ) => *m1 == *m2 && (**t1).eq(&**t2) && same_cases(c1, c2),
            (
                ASTNode::TaggingNode { meta: m1, ident: i1, value: v1, data_type: t1 },
                ASTNode::TaggingNode { meta: m2, ident: i2, value: v2, data_type: t2 },
            ) => *m1 == *m2 && *i1 == *i2 && (**v1).eq(&**v2) && *t1 == *t2,
            (
                ASTNode::FixNode { meta: m1, point: p1 },
                ASTNode::FixNode { meta: m2, point: p2 },
            ) => *m1 == *m2 && (**p1).eq(&**p2),
            _ => false,
        }
    }
}

impl vstd::std_specs::cmp::PartialEqSpecImpl for ASTNode {
    open spec fn obeys_eq_spec() -> bool {
        true
    }

    open spec fn eq_spec(&self, other: &Self) -> bool {
        self@ == other@
    }
}

impl View for ASTNode {
    type V = Term;

    open spec fn view(&self) -> Term {
        self.model()
    }
}

} // verus!
