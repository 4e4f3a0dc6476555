//! Builds the syntax tree from the tree of rule matches that a parser hands
//! over.

use crate::ast::{ASTNode, Name, Operator, Span, Term, Ty, Type, TypeAssignment, Value};
use crate::ast::{case_entries, record_entries, type_entries};
use crate::assoc::as_map;
use vstd::prelude::*;
use vstd::string::{StrSliceExecFns, StringExecFns};

verus! {

/// The rules of the grammar.
#[derive(Debug, Clone, Copy, PartialEq, Eq, Structural)]
pub enum Rule {
    Program,
    Application,
    Abstraction,
    Ident,
    ParenIdent,
    Arithmetic,
    ZeroCheck,
    IfThen,
    Projection,
    Record,
    RecordElement,
    Matching,
    CaseElement,
    Tagging,
    Fixpoint,
    ValZero,
    ValTrue,
    ValFalse,
    OpSucc,
    OpPred,
    TypeTerm,
    TypeNat,
    TypeBool,
    TypeArrow,
    TypeRecord,
    TypeVariant,
    Name,
    /// A rule that the tree builder has no use for.
    Other,
}

/// One match of a rule: the rule, the stretch of text that it matched, that
/// text, and the matches inside it, in the order of the text.
#[derive(Debug)]
pub struct ParseTree {
    pub rule: Rule,
    pub meta: Span,
    pub text: String,
    pub inner: Vec<ParseTree>,
}

/// The model of a match.
pub ghost struct Match {
    pub rule: Rule,
    pub meta: Span,
    pub text: Seq<char>,
    pub inner: Seq<Match>,
}

/// The models of a sequence of matches, in order.
pub open spec fn matches_model(trees: Seq<ParseTree>) -> Seq<Match>
    decreases trees,
{
    if trees.len() == 0 {
        Seq::empty()
    } else {
        matches_model(trees.drop_last()).push(trees.last().model())
    }
}

impl ParseTree {
    /// The model of this match.
    pub open spec fn model(&self) -> Match
        decreases self,
    {
        Match {
            rule: self.rule,
            meta: self.meta,
            text: self.text@,
            inner: matches_model(self.inner@),
        }
    }
}

impl View for ParseTree {
    type V = Match;

    open spec fn view(&self) -> Match {
        self.model()
    }
}

/// The models of a sequence of matches stand at the same places.
pub proof fn lemma_matches_model(trees: Seq<ParseTree>)
    ensures
        matches_model(trees).len() == trees.len(),
        forall|i: int| 0 <= i < trees.len() ==> #[trigger] matches_model(trees)[i] == trees[i]@,
    decreases trees.len(),
{
    if trees.len() > 0 {
        lemma_matches_model(trees.drop_last());
    }
}

/// Why a tree of matches is no program.
#[derive(Debug, Clone, Copy, PartialEq, Eq, Structural)]
pub enum BuildError {
    /// There is no match at all.
    EmptyInput,
    /// A match of this rule has fewer matches inside than the rule's
    /// construct has parts.
    Incomplete(Rule),
    /// A match of this rule stands where an expression is expected, and is
    /// none.
    NotImplemented(Rule),
    /// A match of this rule stands where an operator is expected, and is none.
    IncorrectOperator(Rule),
    /// A match of this rule stands where a type is expected, and is none.
    IncorrectType(Rule),
}

/// The text without its spaces.
pub open spec fn without_spaces(text: Seq<char>) -> Seq<char>
    decreases text.len(),
{
    if text.len() == 0 {
        Seq::empty()
    } else if text.last() == ' ' {
        without_spaces(text.drop_last())
    } else {
        without_spaces(text.drop_last()).push(text.last())
    }
}

/// The type that a match of a type rule stands for.
pub open spec fn built_type(tree: Match) -> Result<Ty, BuildError>
    decreases tree,
{
    match tree.rule {
        Rule::TypeNat => Ok(Ty::Single(Type::Nat)),
        Rule::TypeBool => Ok(Ty::Single(Type::Bool)),
        Rule::TypeArrow => if tree.inner.len() < 1 {
            Err(BuildError::Incomplete(Rule::TypeArrow))
        } else {
            match built_type(tree.inner[0]) {
                Err(e) => Err(e),
                Ok(left) => if tree.inner.len() < 2 {
                    Err(BuildError::Incomplete(Rule::TypeArrow))
                } else {
                    match built_type(tree.inner[1]) {
                        Err(e) => Err(e),
                        Ok(right) => Ok(Ty::Arrow(Box::new(left), Box::new(right))),
                    }
                },
            }
        },
        Rule::TypeRecord => match built_type_terms(tree.inner) {
            Err(e) => Err(e),
            Ok(entries) => Ok(Ty::Record(as_map(entries))),
        },
        Rule::TypeVariant => match built_type_terms(tree.inner) {
            Err(e) => Err(e),
            Ok(entries) => Ok(Ty::Variant(as_map(entries))),
        },
        other => Err(BuildError::IncorrectType(other)),
    }
}

/// The name and the type that a match of a name with its type stands for.
pub open spec fn built_type_term(tree: Match) -> Result<(Name, Ty), BuildError>
    decreases tree,
{
    if tree.inner.len() < 2 {
        Err(BuildError::Incomplete(Rule::TypeTerm))
    } else {
        match built_type(tree.inner[1]) {
            Err(e) => Err(e),
            Ok(data_type) => Ok((tree.inner[0].text, data_type)),
        }
    }
}

/// The names and types that a sequence of such matches stands for, in order,
/// or the error of the first that stands for none.
pub open spec fn built_type_terms(trees: Seq<Match>) -> Result<Seq<(Name, Ty)>, BuildError>
    decreases trees,
{
    if trees.len() == 0 {
        Ok(Seq::empty())
    } else {
        match built_type_terms(trees.drop_last()) {
            Err(e) => Err(e),
            Ok(entries) => match built_type_term(trees.last()) {
                Err(e) => Err(e),
                Ok(entry) => Ok(entries.push(entry)),
            },
        }
    }
}

/// The term that a match stands for.
pub open spec fn built(tree: Match) -> Result<Term, BuildError>
    decreases tree,
{
    let meta = tree.meta;
    let inner = tree.inner;
    match tree.rule {
        Rule::Program => if inner.len() < 1 {
            Err(BuildError::Incomplete(Rule::Program))
        } else {
            built(inner[0])
        },
        Rule::Application => if inner.len() < 1 {
            Err(BuildError::Incomplete(Rule::Application))
        } else {
            match built(inner[0]) {
                Err(e) => Err(e),
                Ok(first) => if inner.len() < 2 {
                    Ok(first)
                } else {
                    match built(inner[1]) {
                        Err(e) => Err(e),
                        Ok(second) => Ok(
                            Term::Application {
                                meta,
                                left: Box::new(first),
                                right: Box::new(second),
                            },
                        ),
                    }
                },
            }
        },
        Rule::Abstraction => if inner.len() < 1 {
            Err(BuildError::Incomplete(Rule::Abstraction))
        } else {
            match built_type_term(inner[0]) {
                Err(e) => Err(e),
                Ok(binding) => if inner.len() < 2 {
                    Err(BuildError::Incomplete(Rule::Abstraction))
                } else {
                    match built(inner[1]) {
                        Err(e) => Err(e),
                        Ok(body) => Ok(
                            Term::Abstraction {
                                meta,
                                ident: binding.0,
                                data_type: binding.1,
                                body: Box::new(body),
                            },
                        ),
                    }
                },
            }
        },
        Rule::Ident => Ok(Term::Identifier { meta, name: without_spaces(tree.text) }),
        Rule::ParenIdent => Ok(Term::Identifier { meta, name: without_spaces(tree.text) }),
        Rule::Arithmetic => if inner.len() < 1 {
            Err(BuildError::Incomplete(Rule::Arithmetic))
        } else {
            match built_operator(inner[0].rule) {
                Err(e) => Err(e),
                Ok(op) => if inner.len() < 2 {
                    Err(BuildError::Incomplete(Rule::Arithmetic))
                } else {
                    match built(inner[1]) {
                        Err(e) => Err(e),
                        Ok(expr) => Ok(Term::Arithmetic { meta, op, expr: Box::new(expr) }),
                    }
                },
            }
        },
        Rule::ZeroCheck => if inner.len() < 1 {
            Err(BuildError::Incomplete(Rule::ZeroCheck))
        } else {
            match built(inner[0]) {
                Err(e) => Err(e),
                Ok(expr) => Ok(Term::IsZero { meta, expr: Box::new(expr) }),
            }
        },
        Rule::IfThen => if inner.len() < 1 {
            Err(BuildError::Incomplete(Rule::IfThen))
        } else {
            match built(inner[0]) {
                Err(e) => Err(e),
                Ok(clause) => if inner.len() < 2 {
                    Err(BuildError::Incomplete(Rule::IfThen))
                } else {
                    match built(inner[1]) {
                        Err(e) => Err(e),
                        Ok(then_arm) => if inner.len() < 3 {
                            Err(BuildError::Incomplete(Rule::IfThen))
                        } else {
                            match built(inner[2]) {
                                Err(e) => Err(e),
                                Ok(else_arm) => Ok(
                                    Term::Condition {
                                        meta,
                                        clause: Box::new(clause),
                                        then_arm: Box::new(then_arm),
                                        else_arm: Box::new(else_arm),
                                    },
                                ),
                            }
                        },
                    }
                },
            }
        },
        Rule::Projection => if inner.len() < 1 {
            Err(BuildError::Incomplete(Rule::Projection))
        } else {
            match built(inner[0]) {
                Err(e) => Err(e),
                Ok(target) => if inner.len() < 2 {
                    Err(BuildError::Incomplete(Rule::Projection))
                } else {
                    Ok(Term::Projection { meta, target: Box::new(target), attrib: inner[1].text })
                },
            }
        },
        Rule::Record => match built_records(inner) {
            Err(e) => Err(e),
            Ok(records) => Ok(Term::Record { meta, records }),
        },
        Rule::Matching => if inner.len() < 1 {
            Err(BuildError::Incomplete(Rule::Matching))
        } else {
            match built(inner[0]) {
                Err(e) => Err(e),
                Ok(to_match) => match built_cases(inner, inner.len()) {
                    Err(e) => Err(e),
                    Ok(cases) => Ok(Term::Matching { meta, to_match: Box::new(to_match), cases }),
                },
            }
        },
        Rule::Tagging => if inner.len() < 2 {
            Err(BuildError::Incomplete(Rule::Tagging))
        } else {
            match built(inner[1]) {
                Err(e) => Err(e),
                Ok(value) => if inner.len() < 3 {
                    Err(BuildError::Incomplete(Rule::Tagging))
                } else {
                    match built_type(inner[2]) {
                        Err(e) => Err(e),
                        Ok(data_type) => Ok(
                            Term::Tagging {
                                meta,
                                ident: inner[0].text,
                                value: Box::new(value),
                                data_type,
                            },
                        ),
                    }
                },
            }
        },
        Rule::Fixpoint => if inner.len() < 1 {
            Err(BuildError::Incomplete(Rule::Fixpoint))
        } else {
            match built(inner[0]) {
                Err(e) => Err(e),
                Ok(point) => Ok(Term::Fix { meta, point: Box::new(point) }),
            }
        },
        Rule::ValZero => Ok(Term::Literal { meta, value: Value::Zero }),
        Rule::ValTrue => Ok(Term::Literal { meta, value: Value::True }),
        Rule::ValFalse => Ok(Term::Literal { meta, value: Value::False }),
        other => Err(BuildError::NotImplemented(other)),
    }
}

/// The operator that a rule stands for.
pub open spec fn built_operator(rule: Rule) -> Result<Operator, BuildError> {
    match rule {
        Rule::OpSucc => Ok(Operator::Succ),
        Rule::OpPred => Ok(Operator::Pred),
        other => Err(BuildError::IncorrectOperator(other)),
    }
}

/// The entry that a match of a record element stands for.
pub open spec fn built_record(tree: Match) -> Result<(Name, Term), BuildError>
    decreases tree,
{
    if tree.inner.len() < 2 {
        Err(BuildError::Incomplete(Rule::RecordElement))
    } else {
        match built(tree.inner[1]) {
            Err(e) => Err(e),
            Ok(value) => Ok((tree.inner[0].text, value)),
        }
    }
}

/// The entries that the matches of record elements stand for, in order, or
/// the error of the first that stands for none.
pub open spec fn built_records(trees: Seq<Match>) -> Result<Seq<(Name, Term)>, BuildError>
    decreases trees,
{
    if trees.len() == 0 {
        Ok(Seq::empty())
    } else {
        match built_records(trees.drop_last()) {
            Err(e) => Err(e),
            Ok(entries) => match built_record(trees.last()) {
                Err(e) => Err(e),
                Ok(entry) => Ok(entries.push(entry)),
            },
        }
    }
}

/// The case that a match of a case element stands for.
pub open spec fn built_case(tree: Match) -> Result<(Name, (Name, Term)), BuildError>
    decreases tree,
{
    if tree.inner.len() < 3 {
        Err(BuildError::Incomplete(Rule::CaseElement))
    } else {
        match built(tree.inner[2]) {
            Err(e) => Err(e),
            Ok(arm) => Ok((tree.inner[0].text, (tree.inner[1].text, arm))),
        }
    }
}

/// The cases that the matches after the first stand for, up to the match at
/// `upto`, in order, or the error of the first that stands for none.
pub open spec fn built_cases(trees: Seq<Match>, upto: nat) -> Result<
    Seq<(Name, (Name, Term))>,
    BuildError,
>
    decreases trees, upto,
{
    if upto <= 1 || upto > trees.len() {
        Ok(Seq::empty())
    } else {
        match built_cases(trees, (upto - 1) as nat) {
            Err(e) => Err(e),
            Ok(cases) => match built_case(trees[upto - 1]) {
                Err(e) => Err(e),
                Ok(case) => Ok(cases.push(case)),
            },
        }
    }
}

/// The program that a sequence of matches stands for: the term of its first
/// match.
pub open spec fn built_program(parsed: Seq<Match>) -> Result<Term, BuildError> {
    if parsed.len() == 0 {
        Err(BuildError::EmptyInput)
    } else {
        built(parsed[0])
    }
}

/// An error among the first type terms is the error of all.
pub proof fn lemma_type_terms_error(trees: Seq<Match>, n: int)
    requires
        0 <= n <= trees.len(),
        built_type_terms(trees.take(n)) is Err,
    ensures
        built_type_terms(trees) == built_type_terms(trees.take(n)),
    decreases trees.len(),
{
    if n < trees.len() {
        assert(trees.drop_last().take(n) == trees.take(n));
        lemma_type_terms_error(trees.drop_last(), n);
    } else {
        assert(trees.take(n) == trees);
    }
}

/// An error among the first record elements is the error of all.
pub proof fn lemma_records_error(trees: Seq<Match>, n: int)
    requires
        0 <= n <= trees.len(),
        built_records(trees.take(n)) is Err,
    ensures
        built_records(trees) == built_records(trees.take(n)),
    decreases trees.len(),
{
    if n < trees.len() {
        assert(trees.drop_last().take(n) == trees.take(n));
        lemma_records_error(trees.drop_last(), n);
    } else {
        assert(trees.take(n) == trees);
    }
}

/// An error among the first cases is the error of all.
pub proof fn lemma_cases_error(trees: Seq<Match>, n: nat, upto: nat)
    requires
        n <= upto <= trees.len(),
        built_cases(trees, n) is Err,
    ensures
        built_cases(trees, upto) == built_cases(trees, n),
    decreases upto,
{
    if n < upto {
        lemma_cases_error(trees, n, (upto - 1) as nat);
    }
}

/// What a builder returned agrees with what the matches stand for.
pub open spec fn node_agrees(got: Result<ASTNode, BuildError>, want: Result<Term, BuildError>) -> bool {
    match got {
        Ok(node) => want == Ok::<Term, BuildError>(node@),
        Err(e) => want == Err::<Term, BuildError>(e),
    }
}

/// What a builder of types returned agrees with what the matches stand for.
pub open spec fn type_agrees(got: Result<TypeAssignment, BuildError>, want: Result<Ty, BuildError>) -> bool {
    match got {
        Ok(t) => want == Ok::<Ty, BuildError>(t@),
        Err(e) => want == Err::<Ty, BuildError>(e),
    }
}

/// Builds the syntax tree of a program from the matches that the parser
/// found: the tree of the first match.
pub fn build_ast(parsed: &Vec<ParseTree>) -> (built: Result<ASTNode, BuildError>)
    ensures
        node_agrees(built, built_program(matches_model(parsed@))),
{
    proof {
        lemma_matches_model(parsed@);
    }
    if parsed.len() == 0 {
        return Err(BuildError::EmptyInput);
    }
    build_node(&parsed[0])
}

/// Builds the syntax tree that a match stands for.
pub fn build_node(tree: &ParseTree) -> (node: Result<ASTNode, BuildError>)
    ensures
        node_agrees(node, built(tree@)),
    decreases tree, 1nat,
{
    match tree.rule {
        Rule::Program => build_program(tree),
        Rule::Application => build_application(tree),
        Rule::Abstraction => build_abstraction(tree),
        Rule::Ident => build_ident(tree),
        Rule::ParenIdent => build_ident(tree),
        Rule::Arithmetic => build_arithmetic(tree),
        Rule::ZeroCheck => build_zero_check(tree),
        Rule::IfThen => build_if_then(tree),
        Rule::Projection => build_projection(tree),
        Rule::Record => build_record(tree),
        Rule::Matching => build_matching(tree),
        Rule::Tagging => build_tagging(tree),
        Rule::Fixpoint => build_fixpoint(tree),
        Rule::ValZero => Ok(ASTNode::ValueNode { meta: tree.meta, value: Value::Zero }),
        Rule::ValTrue => Ok(ASTNode::ValueNode { meta: tree.meta, value: Value::True }),
        Rule::ValFalse => Ok(ASTNode::ValueNode { meta: tree.meta, value: Value::False }),
        other => Err(BuildError::NotImplemented(other)),
    }
}

fn build_program(tree: &ParseTree) -> (node: Result<ASTNode, BuildError>)
    requires
        tree.rule == Rule::Program,
    ensures
        node_agrees(node, built(tree@)),
    decreases tree, 0nat,
{
    proof {
        lemma_matches_model(tree.inner@);
    }
    if tree.inner.len() < 1 {
        return Err(BuildError::Incomplete(Rule::Program));
    }
    build_node(&tree.inner[0])
}

fn build_application(tree: &ParseTree) -> (node: Result<ASTNode, BuildError>)
    requires
        tree.rule == Rule::Application,
    ensures
        node_agrees(node, built(tree@)),
    decreases tree, 0nat,
{
    proof {
        lemma_matches_model(tree.inner@);
    }
    if tree.inner.len() < 1 {
        return Err(BuildError::Incomplete(Rule::Application));
    }
    let first = match build_node(&tree.inner[0]) {
        Err(e) => { return Err(e); },
        Ok(node) => node,
    };
    if tree.inner.len() < 2 {
        return Ok(first);
    }
    match build_node(&tree.inner[1]) {
        Err(e) => Err(e),
        Ok(second) => Ok(
            ASTNode::ApplicationNode {
                meta: tree.meta,
                left: Box::new(first),
                right: Box::new(second),
            },
        ),
    }
}

fn build_abstraction(tree: &ParseTree) -> (node: Result<ASTNode, BuildError>)
    requires
        tree.rule == Rule::Abstraction,
    ensures
        node_agrees(node, built(tree@)),
    decreases tree, 0nat,
{
    proof {
        lemma_matches_model(tree.inner@);
    }
    if tree.inner.len() < 1 {
        return Err(BuildError::Incomplete(Rule::Abstraction));
    }
    let (ident, data_type) = match build_type_term(&tree.inner[0]) {
        Err(e) => { return Err(e); },
        Ok(binding) => binding,
    };
    if tree.inner.len() < 2 {
        return Err(BuildError::Incomplete(Rule::Abstraction));
    }
    match build_node(&tree.inner[1]) {
        Err(e) => Err(e),
        Ok(body) => Ok(
            ASTNode::AbstractionNode { meta: tree.meta, ident, data_type, body: Box::new(body) },
        ),
    }
}

fn build_type_term(tree: &ParseTree) -> (binding: Result<(String, TypeAssignment), BuildError>)
    ensures
        match binding {
            Ok(b) => built_type_term(tree@) == Ok::<(Name, Ty), BuildError>((b.0@, b.1@)),
            Err(e) => built_type_term(tree@) == Err::<(Name, Ty), BuildError>(e),
        },
    decreases tree, 0nat,
{
    proof {
        lemma_matches_model(tree.inner@);
    }
    if tree.inner.len() < 2 {
        return Err(BuildError::Incomplete(Rule::TypeTerm));
    }
    let name = tree.inner[0].text.clone();
    match build_type(&tree.inner[1]) {
        Err(e) => Err(e),
        Ok(data_type) => Ok((name, data_type)),
    }
}

/// Builds the entries of a record or variant type.
fn build_type_terms(trees: &Vec<ParseTree>) -> (entries: Result<
    Vec<(String, TypeAssignment)>,
    BuildError,
>)
    ensures
        match entries {
            Ok(v) => built_type_terms(matches_model(trees@)) == Ok::<
                Seq<(Name, Ty)>,
                BuildError,
            >(type_entries(v@)),
            Err(e) => built_type_terms(matches_model(trees@)) == Err::<
                Seq<(Name, Ty)>,
                BuildError,
            >(e),
        },
    decreases trees, 0nat,
{
    let ghost models = matches_model(trees@);
    proof {
        lemma_matches_model(trees@);
    }
    let mut entries: Vec<(String, TypeAssignment)> = Vec::new();
    let mut i: usize = 0;
    while i < trees.len()
        invariant
            i <= trees.len(),
            models == matches_model(trees@),
            models.len() == trees.len(),
            forall|k: int| 0 <= k < trees.len() ==> #[trigger] models[k] == trees@[k]@,
            built_type_terms(models.take(i as int)) == Ok::<Seq<(Name, Ty)>, BuildError>(
                type_entries(entries@),
            ),
        decreases trees.len() - i,
    {
        assert(models.take(i + 1).drop_last() == models.take(i as int));
        match build_type_term(&trees[i]) {
            Err(e) => {
                proof {
                    lemma_type_terms_error(models, i + 1);
                }
                return Err(e);
            },
            Ok(entry) => {
                let ghost before = entries@;
                entries.push(entry);
                assert(entries@.drop_last() == before);
            },
        }
        i = i + 1;
    }
    assert(models.take(i as int) == models);
    Ok(entries)
}

/// Builds the type that a match of a type rule stands for.
pub fn build_type(tree: &ParseTree) -> (data_type: Result<TypeAssignment, BuildError>)
    ensures
        type_agrees(data_type, built_type(tree@)),
    decreases tree, 1nat,
{
    proof {
        lemma_matches_model(tree.inner@);
    }
    match tree.rule {
        Rule::TypeNat => Ok(TypeAssignment::Single(Type::Nat)),
        Rule::TypeBool => Ok(TypeAssignment::Single(Type::Bool)),
        Rule::TypeArrow => {
            if tree.inner.len() < 1 {
                return Err(BuildError::Incomplete(Rule::TypeArrow));
            }
            let left = match build_type(&tree.inner[0]) {
                Err(e) => { return Err(e); },
                Ok(t) => t,
            };
            if tree.inner.len() < 2 {
                return Err(BuildError::Incomplete(Rule::TypeArrow));
            }
            match build_type(&tree.inner[1]) {
                Err(e) => Err(e),
                Ok(right) => Ok(TypeAssignment::Arrow(Box::new(left), Box::new(right))),
            }
        },
        Rule::TypeRecord => match build_type_terms(&tree.inner) {
            Err(e) => Err(e),
            Ok(map) => Ok(TypeAssignment::Record(map)),
        },
        Rule::TypeVariant => match build_type_terms(&tree.inner) {
            Err(e) => Err(e),
            Ok(map) => Ok(TypeAssignment::Variant(map)),
        },
        other => Err(BuildError::IncorrectType(other)),
    }
}

/// Copies a text without its spaces.
fn strip_spaces(text: &str) -> (stripped: String)
    ensures
        stripped@ == without_spaces(text@),
{
    let mut stripped = String::new();
    let len = text.unicode_len();
    let mut i: usize = 0;
    while i < len
        invariant
            i <= len,
            len == text@.len(),
            stripped@ == without_spaces(text@.take(i as int)),
        decreases len - i,
    {
        assert(text@.take(i + 1).drop_last() == text@.take(i as int));
        if text.get_char(i) != ' ' {
            let one = text.substring_char(i, i + 1);
            stripped.append(one);
        }
        i = i + 1;
    }
    assert(text@.take(len as int) == text@);
    stripped
}

fn build_ident(tree: &ParseTree) -> (node: Result<ASTNode, BuildError>)
    requires
        tree.rule == Rule::Ident || tree.rule == Rule::ParenIdent,
    ensures
        node_agrees(node, built(tree@)),
{
    Ok(ASTNode::IdentifierNode { meta: tree.meta, name: strip_spaces(tree.text.as_str()) })
}

fn build_arithmetic(tree: &ParseTree) -> (node: Result<ASTNode, BuildError>)
    requires
        tree.rule == Rule::Arithmetic,
    ensures
        node_agrees(node, built(tree@)),
    decreases tree, 0nat,
{
    proof {
        lemma_matches_model(tree.inner@);
    }
    if tree.inner.len() < 1 {
        return Err(BuildError::Incomplete(Rule::Arithmetic));
    }
    let op = match tree.inner[0].rule {
        Rule::OpSucc => Operator::Succ,
        Rule::OpPred => Operator::Pred,
        other => { return Err(BuildError::IncorrectOperator(other)); },
    };
    if tree.inner.len() < 2 {
        return Err(BuildError::Incomplete(Rule::Arithmetic));
    }
    match build_node(&tree.inner[1]) {
        Err(e) => Err(e),
        Ok(expr) => Ok(ASTNode::ArithmeticNode { meta: tree.meta, op, expr: Box::new(expr) }),
    }
}

fn build_zero_check(tree: &ParseTree) -> (node: Result<ASTNode, BuildError>)
    requires
        tree.rule == Rule::ZeroCheck,
    ensures
        node_agrees(node, built(tree@)),
    decreases tree, 0nat,
{
    proof {
        lemma_matches_model(tree.inner@);
    }
    if tree.inner.len() < 1 {
        return Err(BuildError::Incomplete(Rule::ZeroCheck));
    }
    match build_node(&tree.inner[0]) {
        Err(e) => Err(e),
        Ok(expr) => Ok(ASTNode::IsZeroNode { meta: tree.meta, expr: Box::new(expr) }),
    }
}

fn build_if_then(tree: &ParseTree) -> (node: Result<ASTNode, BuildError>)
    requires
        tree.rule == Rule::IfThen,
    ensures
        node_agrees(node, built(tree@)),
    decreases tree, 0nat,
{
    proof {
        lemma_matches_model(tree.inner@);
    }
    if tree.inner.len() < 1 {
        return Err(BuildError::Incomplete(Rule::IfThen));
    }
    let clause = match build_node(&tree.inner[0]) {
        Err(e) => { return Err(e); },
        Ok(node) => node,
    };
    if tree.inner.len() < 2 {
        return Err(BuildError::Incomplete(Rule::IfThen));
    }
    let then_arm = match build_node(&tree.inner[1]) {
        Err(e) => { return Err(e); },
        Ok(node) => node,
    };
    if tree.inner.len() < 3 {
        return Err(BuildError::Incomplete(Rule::IfThen));
    }
    match build_node(&tree.inner[2]) {
        Err(e) => Err(e),
        Ok(else_arm) => Ok(
            ASTNode::ConditionNode {
                meta: tree.meta,
                clause: Box::new(clause),
                then_arm: Box::new(then_arm),
                else_arm: Box::new(else_arm),
            },
        ),
    }
}

fn build_projection(tree: &ParseTree) -> (node: Result<ASTNode, BuildError>)
    requires
        tree.rule == Rule::Projection,
    ensures
        node_agrees(node, built(tree@)),
    decreases tree, 0nat,
{
    proof {
        lemma_matches_model(tree.inner@);
    }
    if tree.inner.len() < 1 {
        return Err(BuildError::Incomplete(Rule::Projection));
    }
    let target = match build_node(&tree.inner[0]) {
        Err(e) => { return Err(e); },
        Ok(node) => node,
    };
    if tree.inner.len() < 2 {
        return Err(BuildError::Incomplete(Rule::Projection));
    }
    let attrib = tree.inner[1].text.clone();
    Ok(ASTNode::ProjectionNode { meta: tree.meta, target: Box::new(target), attrib })
}

fn build_record(tree: &ParseTree) -> (node: Result<ASTNode, BuildError>)
    requires
        tree.rule == Rule::Record,
    ensures
        node_agrees(node, built(tree@)),
    decreases tree, 0nat,
{
    let ghost models = matches_model(tree.inner@);
    proof {
        lemma_matches_model(tree.inner@);
    }
    let mut records: Vec<(String, ASTNode)> = Vec::new();
    let mut i: usize = 0;
    while i < tree.inner.len()
        invariant
            i <= tree.inner.len(),
            models == matches_model(tree.inner@),
            models.len() == tree.inner.len(),
            forall|k: int| 0 <= k < tree.inner.len() ==> #[trigger] models[k] == tree.inner@[k]@,
            built_records(models.take(i as int)) == Ok::<Seq<(Name, Term)>, BuildError>(
                record_entries(records@),
            ),
            tree.rule == Rule::Record,
            tree@.inner == models,
        decreases tree.inner.len() - i,
    {
        assert(models.take(i + 1).drop_last() == models.take(i as int));
        let el = &tree.inner[i];
        proof {
            lemma_matches_model(el.inner@);
            reveal_with_fuel(built_records, 2);
        }
        if el.inner.len() < 2 {
            proof {
                lemma_records_error(models, i + 1);
            }
            return Err(BuildError::Incomplete(Rule::RecordElement));
        }
        let name = el.inner[0].text.clone();
        match build_node(&el.inner[1]) {
            Err(e) => {
                proof {
                    lemma_records_error(models, i + 1);
                }
                return Err(e);
            },
            Ok(result) => {
                let ghost before = records@;
                records.push((name, result));
                assert(records@.drop_last() == before);
            },
        }
        i = i + 1;
    }
    assert(models.take(i as int) == models);
    Ok(ASTNode::RecordNode { meta: tree.meta, records })
}

fn build_matching(tree: &ParseTree) -> (node: Result<ASTNode, BuildError>)
    requires
        tree.rule == Rule::Matching,
    ensures
        node_agrees(node, built(tree@)),
    decreases tree, 0nat,
{
    let ghost models = matches_model(tree.inner@);
    proof {
        lemma_matches_model(tree.inner@);
    }
    if tree.inner.len() < 1 {
        return Err(BuildError::Incomplete(Rule::Matching));
    }
    let to_match = match build_node(&tree.inner[0]) {
        Err(e) => { return Err(e); },
        Ok(node) => node,
    };
    let mut cases: Vec<(String, (String, Box<ASTNode>))> = Vec::new();
    let mut i: usize = 1;
    while i < tree.inner.len()
        invariant
            1 <= i <= tree.inner.len(),
            models == matches_model(tree.inner@),
            models.len() == tree.inner.len(),
            forall|k: int| 0 <= k < tree.inner.len() ==> #[trigger] models[k] == tree.inner@[k]@,
            built_cases(models, i as nat) == Ok::<Seq<(Name, (Name, Term))>, BuildError>(
                case_entries(cases@),
            ),
            tree.rule == Rule::Matching,
            tree@.inner == models,
            built(models[0]) == Ok::<Term, BuildError>(to_match@),
        decreases tree.inner.len() - i,
    {
        let case_el = &tree.inner[i];
        proof {
            lemma_matches_model(case_el.inner@);
            reveal_with_fuel(built_cases, 2);
        }
        if case_el.inner.len() < 3 {
            proof {
                lemma_cases_error(models, (i + 1) as nat, models.len());
            }
            return Err(BuildError::Incomplete(Rule::CaseElement));
        }
        let variant = case_el.inner[0].text.clone();
        let ident = case_el.inner[1].text.clone();
        match build_node(&case_el.inner[2]) {
            Err(e) => {
                proof {
                    lemma_cases_error(models, (i + 1) as nat, models.len());
                }
                return Err(e);
            },
            Ok(arm) => {
                let ghost before = cases@;
                cases.push((variant, (ident, Box::new(arm))));
                assert(cases@.drop_last() == before);
            },
        }
        i = i + 1;
    }
    Ok(ASTNode::MatchingNode { meta: tree.meta, to_match: Box::new(to_match), cases })
}

fn build_tagging(tree: &ParseTree) -> (node: Result<ASTNode, BuildError>)
    requires
        tree.rule == Rule::Tagging,
    ensures
        node_agrees(node, built(tree@)),
    decreases tree, 0nat,
{
    proof {
        lemma_matches_model(tree.inner@);
    }
    if tree.inner.len() < 2 {
        return Err(BuildError::Incomplete(Rule::Tagging));
    }
    let ident = tree.inner[0].text.clone();
    let value = match build_node(&tree.inner[1]) {
        Err(e) => { return Err(e); },
        Ok(node) => node,
    };
    if tree.inner.len() < 3 {
        return Err(BuildError::Incomplete(Rule::Tagging));
    }
    match build_type(&tree.inner[2]) {
        Err(e) => Err(e),
        Ok(data_type) => Ok(
            ASTNode::TaggingNode { meta: tree.meta, ident, value: Box::new(value), data_type },
        ),
    }
}

fn build_fixpoint(tree: &ParseTree) -> (node: Result<ASTNode, BuildError>)
    requires
        tree.rule == Rule::Fixpoint,
    ensures
        node_agrees(node, built(tree@)),
    decreases tree, 0nat,
{
    proof {
        lemma_matches_model(tree.inner@);
    }
    if tree.inner.len() < 1 {
        return Err(BuildError::Incomplete(Rule::Fixpoint));
    }
    match build_node(&tree.inner[0]) {
        Err(e) => Err(e),
        Ok(point) => Ok(ASTNode::FixNode { meta: tree.meta, point: Box::new(point) }),
    }
}

} // verus!
