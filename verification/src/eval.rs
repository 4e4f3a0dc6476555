//! The evaluator: call-by-value reduction of a tree to a value, with closures
//! that keep the environment in which they were made.

use crate::assoc::{
    as_map, find_last, lemma_as_map, lemma_position, lemma_position_some, names_in, names_of,
    position,
};
use crate::ast::{
    lemma_case_entries, lemma_record_entries, record_entries, ASTNode, Name, Operator, Term, Value,
};
use crate::check::type_of;
use crate::safety::{has_type, lemma_checked_programs_are_safe, recursion_guarded};
use crate::sym_tab::{innermost, lemma_innermost_map, Scope, SymbolTable};
use vstd::prelude::*;

verus! {

/// A value that evaluation gives. The entries of a record act as a mapping
/// from names to values: where a name occurs twice, the later entry counts.
#[derive(Debug)]
pub enum OutputValue {
    Nat(usize),
    Bool(bool),
    /// A closure: the parameter, the body, and the environment in which the
    /// abstraction was evaluated.
    Func(String, Box<ASTNode>, SymbolTable<OutputValue>),
    Record(Vec<(String, OutputValue)>),
    Variant(String, Box<OutputValue>),
    /// A recursive function that has not been unrolled: it wraps the closure
    /// of the functional whose fixpoint it is.
    Fix(Box<OutputValue>),
}

/// The model of a value.
pub ghost enum Val {
    Nat(nat),
    Bool(bool),
    Func(Name, Term, Seq<(Name, Val)>),
    Record(Map<Name, Val>),
    Variant(Name, Box<Val>),
    Fix(Box<Val>),
}

/// The values of the identifiers in scope, the outermost binding first.
pub type Env = Seq<(Name, Val)>;

/// A shape that evaluation met where the typing rules allow no such shape.
#[derive(Debug, Clone, Copy, PartialEq, Eq, Structural)]
pub enum Fault {
    /// An identifier with no binding in the environment.
    UnboundIdentifier,
    /// The left side of an application is no function.
    NotAFunction,
    /// The operand of `succ` or `pred` is no natural.
    ArithmeticOnNonNat,
    /// The operand of a zero check is no natural.
    ZeroCheckOnNonNat,
    /// The clause of a conditional is no boolean.
    ConditionOnNonBool,
    /// The target of a projection is no record.
    ProjectionOnNonRecord,
    /// The record has no field of the projected name.
    MissingAttribute,
    /// The scrutinee of a match is no variant.
    MatchOnNonVariant,
    /// The match has no case for the tag of its scrutinee.
    MissingArm,
    /// The operand of a fixpoint is no closure.
    FixOnNonFunction,
}

/// Why an evaluation gave no value.
#[derive(Debug, Clone, Copy, PartialEq, Eq, Structural)]
pub enum EvalError {
    /// Calls were nested deeper than the fuel allows.
    OutOfFuel,
    /// A successor does not fit the machine's naturals.
    Overflow,
    /// The tree does not obey the typing rules.
    Stuck(Fault),
}

/// The models of the scopes of an environment, in order.
pub open spec fn scopes_model(scopes: Seq<Scope<OutputValue>>) -> Env
    decreases scopes,
{
    if scopes.len() == 0 {
        Seq::empty()
    } else {
        scopes_model(scopes.drop_last()).push((scopes.last().name@, scopes.last().contents.model()))
    }
}

/// The models of the entries of a record value, in order.
pub open spec fn value_entries(entries: Seq<(String, OutputValue)>) -> Seq<(Name, Val)>
    decreases entries,
{
    if entries.len() == 0 {
        Seq::empty()
    } else {
        value_entries(entries.drop_last()).push((entries.last().0@, entries.last().1.model()))
    }
}

impl OutputValue {
    /// The model of this value.
    pub open spec fn model(&self) -> Val
        decreases self,
    {
        match self {
            OutputValue::Nat(n) => Val::Nat(*n as nat),
            OutputValue::Bool(b) => Val::Bool(*b),
            OutputValue::Func(param, body, table) => Val::Func(
                param@,
                body@,
                scopes_model(table.table@),
            ),
            OutputValue::Record(entries) => Val::Record(as_map(value_entries(entries@))),
            OutputValue::Variant(tag, payload) => Val::Variant(
                tag@,
                Box::new(payload.model()),
            ),
            OutputValue::Fix(inner) => Val::Fix(Box::new(inner.model())),
        }
    }
}

impl View for OutputValue {
    type V = Val;

    open spec fn view(&self) -> Val {
        self.model()
    }
}

/// The environment that a table of values stands for.
pub open spec fn environment(table: &SymbolTable<OutputValue>) -> Env {
    scopes_model(table.table@)
}

/// The value of a term in an environment, with calls nested at most `fuel`
/// deep: the operands of an application are evaluated left to right before
/// the body, a closure's body runs in the environment that the closure
/// captured, and only the taken branch of a conditional is evaluated.
pub open spec fn eval_term(term: Term, env: Env, fuel: nat) -> Result<Val, EvalError>
    decreases fuel, 2nat, term,
{
    match term {
        Term::Literal { meta, value } => match value {
            Value::True => Ok(Val::Bool(true)),
            Value::False => Ok(Val::Bool(false)),
            Value::Zero => Ok(Val::Nat(0)),
        },
        Term::IsZero { meta, expr } => match eval_term(*expr, env, fuel) {
            Err(e) => Err(e),
            Ok(v) => match v {
                Val::Nat(n) => Ok(Val::Bool(n == 0)),
                _ => Err(EvalError::Stuck(Fault::ZeroCheckOnNonNat)),
            },
        },
        Term::Arithmetic { meta, op, expr } => match eval_term(*expr, env, fuel) {
            Err(e) => Err(e),
            Ok(v) => match v {
                Val::Nat(n) => match op {
                    Operator::Pred => if n == 0 {
                        Ok(Val::Nat(0))
                    } else {
                        Ok(Val::Nat((n - 1) as nat))
                    },
                    Operator::Succ => if n < usize::MAX {
                        Ok(Val::Nat(n + 1))
                    } else {
                        Err(EvalError::Overflow)
                    },
                },
                _ => Err(EvalError::Stuck(Fault::ArithmeticOnNonNat)),
            },
        },
        Term::Condition { meta, clause, then_arm, else_arm } => match eval_term(
            *clause,
            env,
            fuel,
        ) {
            Err(e) => Err(e),
            Ok(v) => match v {
                Val::Bool(b) => if b {
                    eval_term(*then_arm, env, fuel)
                } else {
                    eval_term(*else_arm, env, fuel)
                },
                _ => Err(EvalError::Stuck(Fault::ConditionOnNonBool)),
            },
        },
        Term::Identifier { meta, name } => match innermost(env, name) {
            Some(v) => Ok(v),
            None => Err(EvalError::Stuck(Fault::UnboundIdentifier)),
        },
        Term::Abstraction { meta, ident, data_type, body } => Ok(Val::Func(ident, *body, env)),
        Term::Application { meta, left, right } => match eval_term(*left, env, fuel) {
            Err(e) => Err(e),
            Ok(l) => match callee(l, fuel) {
                Err(e) => Err(e),
                Ok(f) => match f {
                    Val::Func(param, body, captured) => match eval_term(*right, env, fuel) {
                        Err(e) => Err(e),
                        Ok(arg) => if fuel == 0 {
                            Err(EvalError::OutOfFuel)
                        } else {
                            eval_term(body, captured.push((param, arg)), (fuel - 1) as nat)
                        },
                    },
                    _ => Err(EvalError::Stuck(Fault::NotAFunction)),
                },
            },
        },
        Term::Projection { meta, target, attrib } => match eval_term(*target, env, fuel) {
            Err(e) => Err(e),
            Ok(v) => match v {
                Val::Record(fields) => if fields.dom().contains(attrib) {
                    Ok(fields[attrib])
                } else {
                    Err(EvalError::Stuck(Fault::MissingAttribute))
                },
                _ => Err(EvalError::Stuck(Fault::ProjectionOnNonRecord)),
            },
        },
        Term::Record { meta, records } => match eval_records(records, env, fuel) {
            Err(e) => Err(e),
            Ok(values) => Ok(Val::Record(as_map(values))),
        },
        Term::Matching { meta, to_match, cases } => match eval_term(*to_match, env, fuel) {
            Err(e) => Err(e),
            Ok(v) => match v {
                Val::Variant(tag, payload) => match position(names_of(cases), tag) {
                    Some(i) => if 0 <= i < cases.len() {
                        eval_term(cases[i].1.1, env.push((cases[i].1.0, *payload)), fuel)
                    } else {
                        Err(EvalError::Stuck(Fault::MissingArm))
                    },
                    None => Err(EvalError::Stuck(Fault::MissingArm)),
                },
                _ => Err(EvalError::Stuck(Fault::MatchOnNonVariant)),
            },
        },
        Term::Tagging { meta, ident, value, data_type } => match eval_term(*value, env, fuel) {
            Err(e) => Err(e),
            Ok(v) => Ok(Val::Variant(ident, Box::new(v))),
        },
        Term::Fix { meta, point } => match eval_term(*point, env, fuel) {
            Err(e) => Err(e),
            Ok(p) => match p {
                Val::Func(name, body, captured) => unroll(Val::Fix(Box::new(p)), fuel),
                _ => Err(EvalError::Stuck(Fault::FixOnNonFunction)),
            },
        },
    }
}

/// One step of recursion: the body of the functional that `recursive` wraps,
/// evaluated in the functional's captured environment with its parameter
/// bound to `recursive` itself.
pub open spec fn unroll(recursive: Val, fuel: nat) -> Result<Val, EvalError>
    decreases fuel, 0nat, recursive,
{
    match recursive {
        Val::Fix(inner) => match *inner {
            Val::Func(name, body, captured) => if fuel == 0 {
                Err(EvalError::OutOfFuel)
            } else {
                eval_term(body, captured.push((name, recursive)), (fuel - 1) as nat)
            },
            _ => Err(EvalError::Stuck(Fault::NotAFunction)),
        },
        _ => Err(EvalError::Stuck(Fault::NotAFunction)),
    }
}

/// The closure that an application of `function` enters: `function` itself
/// where it is a closure; where it is a recursive function, what unrolling it
/// gives, unrolled again as often as that is recursive too.
pub open spec fn callee(function: Val, fuel: nat) -> Result<Val, EvalError>
    decreases fuel, 1nat, function,
{
    match function {
        Val::Func(param, body, captured) => Ok(function),
        Val::Fix(inner) => match unroll(function, fuel) {
            Err(e) => Err(e),
            Ok(unrolled) => if fuel == 0 {
                Err(EvalError::OutOfFuel)
            } else {
                callee(unrolled, (fuel - 1) as nat)
            },
        },
        _ => Err(EvalError::Stuck(Fault::NotAFunction)),
    }
}

/// The values of the entries of a record, in order, or the error of the first
/// entry that gives none.
pub open spec fn eval_records(records: Seq<(Name, Term)>, env: Env, fuel: nat) -> Result<
    Seq<(Name, Val)>,
    EvalError,
>
    decreases fuel, 2nat, records,
{
    if records.len() == 0 {
        Ok(Seq::empty())
    } else {
        match eval_records(records.drop_last(), env, fuel) {
            Err(e) => Err(e),
            Ok(values) => match eval_term(records.last().1, env, fuel) {
                Err(e) => Err(e),
                Ok(v) => Ok(values.push((records.last().0, v))),
            },
        }
    }
}

/// The models of the scopes of an environment stand at the same places,
/// under the same names.
pub proof fn lemma_scopes_model(scopes: Seq<Scope<OutputValue>>)
    ensures
        scopes_model(scopes).len() == scopes.len(),
        forall|i: int|
            0 <= i < scopes.len() ==> #[trigger] scopes_model(scopes)[i] == (
                scopes[i].name@,
                scopes[i].contents@,
            ),
    decreases scopes.len(),
{
    if scopes.len() > 0 {
        lemma_scopes_model(scopes.drop_last());
    }
}

/// The models of the entries of a record value stand at the same places,
/// under the same names.
pub proof fn lemma_value_entries(entries: Seq<(String, OutputValue)>)
    ensures
        value_entries(entries).len() == entries.len(),
        forall|i: int|
            0 <= i < entries.len() ==> #[trigger] value_entries(entries)[i] == (
                entries[i].0@,
                entries[i].1@,
            ),
        names_of(value_entries(entries)) == names_in(entries),
    decreases entries.len(),
{
    if entries.len() > 0 {
        lemma_value_entries(entries.drop_last());
    }
}

/// Copies the scopes of an environment.
fn clone_scopes(scopes: &Vec<Scope<OutputValue>>) -> (copy: Vec<Scope<OutputValue>>)
    ensures
        scopes_model(copy@) == scopes_model(scopes@),
    decreases scopes, 0nat,
{
    let mut copy: Vec<Scope<OutputValue>> = Vec::new();
    let mut i: usize = 0;
    while i < scopes.len()
        invariant
            i <= scopes.len(),
            copy.len() == i,
            forall|k: int|
                0 <= k < i ==> (#[trigger] copy@[k]).name@ == scopes@[k].name@
                    && copy@[k].contents@ == scopes@[k].contents@,
        decreases scopes.len() - i,
    {
        copy.push(Scope { name: scopes[i].name.clone(), contents: scopes[i].contents.clone() });
        i = i + 1;
    }
    proof {
        lemma_scopes_model(copy@);
        lemma_scopes_model(scopes@);
    }
    copy
}

/// Copies the entries of a record value.
fn clone_values(entries: &Vec<(String, OutputValue)>) -> (copy: Vec<(String, OutputValue)>)
    ensures
        value_entries(copy@) == value_entries(entries@),
    decreases entries, 0nat,
{
    let mut copy: Vec<(String, OutputValue)> = Vec::new();
    let mut i: usize = 0;
    while i < entries.len()
        invariant
            i <= entries.len(),
            copy.len() == i,
            forall|k: int|
                0 <= k < i ==> (#[trigger] copy@[k]).0@ == entries@[k].0@ && copy@[k].1@
                    == entries@[k].1@,
        decreases entries.len() - i,
    {
        copy.push((entries[i].0.clone(), entries[i].1.clone()));
        i = i + 1;
    }
    proof {
        lemma_value_entries(copy@);
        lemma_value_entries(entries@);
    }
    copy
}

impl Clone for OutputValue {
    fn clone(&self) -> (copy: Self)
        ensures
            copy@ == self@,
        decreases self, 1nat,
    {
        match self {
            OutputValue::Nat(n) => OutputValue::Nat(*n),
            OutputValue::Bool(b) => OutputValue::Bool(*b),
            OutputValue::Func(param, body, table) => OutputValue::Func(
                param.clone(),
                Box::new((**body).clone()),
                SymbolTable { table: clone_scopes(&table.table) },
            ),
            OutputValue::Record(entries) => OutputValue::Record(clone_values(entries)),
            OutputValue::Variant(tag, payload) => OutputValue::Variant(
                tag.clone(),
                Box::new((**payload).clone()),
            ),
            OutputValue::Fix(inner) => OutputValue::Fix(Box::new((**inner).clone())),
        }
    }
}

/// Whether two environments are alike, scope by scope.
fn same_scopes(left: &Vec<Scope<OutputValue>>, right: &Vec<Scope<OutputValue>>) -> (same: bool)
    ensures
        same == (scopes_model(left@) == scopes_model(right@)),
    decreases left, 0nat,
{
    proof {
        lemma_scopes_model(left@);
        lemma_scopes_model(right@);
    }
    if left.len() != right.len() {
        return false;
    }
    let mut i: usize = 0;
    while i < left.len()
        invariant
            i <= left.len(),
            left.len() == right.len(),
            forall|k: int|
                0 <= k < i ==> #[trigger] scopes_model(left@)[k] == scopes_model(right@)[k],
        decreases left.len() - i,
    {
        proof {
            lemma_scopes_model(left@);
            lemma_scopes_model(right@);
        }
        if !(left[i].name == right[i].name && left[i].contents.eq(&right[i].contents)) {
            assert(scopes_model(left@)[i as int] != scopes_model(right@)[i as int]);
            return false;
        }
        i = i + 1;
    }
    assert(scopes_model(left@) =~= scopes_model(right@));
    true
}

/// Whether two sequences of record entries stand for the same mapping.
fn same_fields(left: &Vec<(String, OutputValue)>, right: &Vec<(String, OutputValue)>) -> (same:
    bool)
    ensures
        same == (as_map(value_entries(left@)) == as_map(value_entries(right@))),
    decreases left, 0nat,
{
    let ghost lm = as_map(value_entries(left@));
    let ghost rm = as_map(value_entries(right@));
    proof {
        lemma_value_entries(left@);
        lemma_value_entries(right@);
    }
    let mut i: usize = 0;
    while i < left.len()
        invariant
            i <= left.len(),
            lm == as_map(value_entries(left@)),
            rm == as_map(value_entries(right@)),
            names_of(value_entries(left@)) == names_in(left@),
            names_of(value_entries(right@)) == names_in(right@),
            forall|k: int|
                0 <= k < i ==> rm.dom().contains(#[trigger] names_in(left@)[k]) && rm[names_in(
                    left@,
                )[k]] == lm[names_in(left@)[k]],
        decreases left.len() - i,
    {
        let name = left[i].0.as_str();
        proof {
            lemma_value_entries(left@);
            lemma_value_entries(right@);
            lemma_as_map(value_entries(left@), name@);
            lemma_as_map(value_entries(right@), name@);
            lemma_position(names_in(left@), name@);
            lemma_position_some(names_in(left@), name@, i as int);
        }
        let mine = find_last(left, name);
        let mine = mine.unwrap();
        match find_last(right, name) {
            Some(theirs) => {
                if !left[mine].1.eq(&right[theirs].1) {
                    return false;
                }
            },
            None => {
                return false;
            },
        }
        i = i + 1;
    }
    let mut j: usize = 0;
    while j < right.len()
        invariant
            j <= right.len(),
            lm == as_map(value_entries(left@)),
            rm == as_map(value_entries(right@)),
            names_of(value_entries(left@)) == names_in(left@),
            names_of(value_entries(right@)) == names_in(right@),
            forall|k: int| 0 <= k < j ==> lm.dom().contains(#[trigger] names_in(right@)[k]),
        decreases right.len() - j,
    {
        let name = right[j].0.as_str();
        proof {
            lemma_as_map(value_entries(left@), name@);
            lemma_as_map(value_entries(right@), name@);
            lemma_position_some(names_in(right@), name@, j as int);
        }
        if find_last(left, name).is_none() {
            return false;
        }
        j = j + 1;
    }
    proof {
        assert forall|name: Name| lm.dom().contains(name) <==> rm.dom().contains(name) by {
            lemma_as_map(value_entries(left@), name);
            lemma_as_map(value_entries(right@), name);
            lemma_position(names_in(left@), name);
            lemma_position(names_in(right@), name);
        }
        assert forall|name: Name| lm.dom().contains(name) implies lm[name] == rm[name] by {
            lemma_as_map(value_entries(left@), name);
            lemma_position(names_in(left@), name);
        }
        assert(lm =~= rm);
    }
    true
}

impl PartialEq for OutputValue {
    /// Two values are equal where they are the same natural or boolean, the
    /// same variant, records with the same fields whatever the order of their
    /// entries, or closures with the same parameter, body and environment.
    fn eq(&self, other: &Self) -> (same: bool)
        decreases self, 1nat,
    {
        match (self, other) {
            (OutputValue::Nat(a), OutputValue::Nat(b)) => *a == *b,
            (OutputValue::Bool(a), OutputValue::Bool(b)) => *a == *b,
            (OutputValue::Func(p1, b1, t1), OutputValue::Func(p2, b2, t2)) => *p1 == *p2 && (
            **b1).eq(&**b2) && same_scopes(&t1.table, &t2.table),
            (OutputValue::Record(a), OutputValue::Record(b)) => same_fields(a, b),
            (OutputValue::Variant(t1, v1), OutputValue::Variant(t2, v2)) => *t1 == *t2 && (
            **v1).eq(&**v2),
            (OutputValue::Fix(a), OutputValue::Fix(b)) => (**a).eq(&**b),
            _ => false,
        }
    }
}

impl vstd::std_specs::cmp::PartialEqSpecImpl for OutputValue {
    open spec fn obeys_eq_spec() -> bool {
        true
    }

    open spec fn eq_spec(&self, other: &Self) -> bool {
        self@ == other@
    }
}

/// What an evaluation returned agrees with what the semantics give.
pub open spec fn delivers(got: Result<OutputValue, EvalError>, want: Result<Val, EvalError>) -> bool {
    match got {
        Ok(v) => want == Ok::<Val, EvalError>(v@),
        Err(e) => want == Err::<Val, EvalError>(e),
    }
}

/// A copy of the table with one more scope, which binds `name` to `value`.
fn bound(table: &SymbolTable<OutputValue>, name: &String, value: OutputValue) -> (inner:
    SymbolTable<OutputValue>)
    ensures
        environment(&inner) == environment(table).push((name@, value@)),
{
    let mut scopes = clone_scopes(&table.table);
    let ghost before = scopes@;
    scopes.push(Scope { name: name.clone(), contents: value });
    assert(scopes@.drop_last() == before);
    SymbolTable { table: scopes }
}

/// An error among the first entries of a record is the error of the record.
pub proof fn lemma_eval_records_error(records: Seq<(Name, Term)>, env: Env, fuel: nat, n: int)
    requires
        0 <= n <= records.len(),
        eval_records(records.take(n), env, fuel) is Err,
    ensures
        eval_records(records, env, fuel) == eval_records(records.take(n), env, fuel),
    decreases records.len(),
{
    if n < records.len() {
        assert(records.drop_last().take(n) == records.take(n));
        lemma_eval_records_error(records.drop_last(), env, fuel, n);
    } else {
        assert(records.take(n) == records);
    }
}

impl ASTNode {
    /// Evaluates the tree under no bindings, with calls nested at most `fuel`
    /// deep. A tree that the checker accepts, and whose recursion is guarded,
    /// never gives a fault, and what it gives has the type of the tree.
    pub fn eval(&self, fuel: usize) -> (out: Result<OutputValue, EvalError>)
        ensures
            delivers(out, eval_term(self@, Seq::empty(), fuel as nat)),
            type_of(self@, Seq::empty()) is Ok && recursion_guarded(self@) ==> match out {
                Ok(v) => has_type(v@, type_of(self@, Seq::empty())->Ok_0),
                Err(e) => e !is Stuck,
            },
    {
        proof {
            if type_of(self@, Seq::empty()) is Ok && recursion_guarded(self@) {
                lemma_checked_programs_are_safe(self@, fuel as nat);
            }
        }
        let table = SymbolTable::new();
        assert(table.table@.len() == table@.len());
        self.eval_node(&table, fuel)
    }

    /// Evaluates the tree under the bindings of `table`.
    pub fn eval_node(&self, table: &SymbolTable<OutputValue>, fuel: usize) -> (out: Result<
        OutputValue,
        EvalError,
    >)
        ensures
            delivers(out, eval_term(self@, environment(table), fuel as nat)),
        decreases fuel, 2nat, self,
    {
        match self {
            ASTNode::AbstractionNode { meta, ident, data_type, body } => Ok(
                OutputValue::Func(
                    ident.clone(),
                    Box::new((**body).clone()),
                    SymbolTable { table: clone_scopes(&table.table) },
                ),
            ),
            ASTNode::ApplicationNode { meta, left, right } => {
                let left_val = match left.eval_node(table, fuel) {
                    Err(e) => { return Err(e); },
                    Ok(v) => v,
                };
                let function = match enter(left_val, fuel) {
                    Err(e) => { return Err(e); },
                    Ok(f) => f,
                };
                match function {
                    OutputValue::Func(param, body, captured) => {
                        let right_val = match right.eval_node(table, fuel) {
                            Err(e) => { return Err(e); },
                            Ok(v) => v,
                        };
                        if fuel == 0 {
                            return Err(EvalError::OutOfFuel);
                        }
                        let inner = bound(&captured, &param, right_val);
                        body.eval_node(&inner, fuel - 1)
                    },
                    _ => Err(EvalError::Stuck(Fault::NotAFunction)),
                }
            },
            ASTNode::ArithmeticNode { meta, op, expr } => match expr.eval_node(table, fuel) {
                Err(e) => Err(e),
                Ok(v) => match v {
                    OutputValue::Nat(x) => match op {
                        Operator::Pred => if x == 0 {
                            Ok(OutputValue::Nat(0))
                        } else {
                            Ok(OutputValue::Nat(x - 1))
                        },
                        Operator::Succ => if x < usize::MAX {
                            Ok(OutputValue::Nat(x + 1))
                        } else {
                            Err(EvalError::Overflow)
                        },
                    },
                    _ => Err(EvalError::Stuck(Fault::ArithmeticOnNonNat)),
                },
            },
            ASTNode::ConditionNode { meta, clause, then_arm, else_arm } => {
                match clause.eval_node(table, fuel) {
                    Err(e) => Err(e),
                    Ok(v) => match v {
                        OutputValue::Bool(x) => if x {
                            then_arm.eval_node(table, fuel)
                        } else {
                            else_arm.eval_node(table, fuel)
                        },
                        _ => Err(EvalError::Stuck(Fault::ConditionOnNonBool)),
                    },
                }
            },
            ASTNode::IdentifierNode { meta, name } => {
                proof {
                    lemma_scopes_model(table.table@);
                    lemma_innermost_map(
                        table@,
                        environment(table),
                        |v: OutputValue| v@,
                        name@,
                    );
                }
                match table.lookup(name.as_str()) {
                    Some(value) => Ok(value.clone()),
                    None => Err(EvalError::Stuck(Fault::UnboundIdentifier)),
                }
            },
            ASTNode::IsZeroNode { meta, expr } => match expr.eval_node(table, fuel) {
                Err(e) => Err(e),
                Ok(v) => match v {
                    OutputValue::Nat(x) => Ok(OutputValue::Bool(x == 0)),
                    _ => Err(EvalError::Stuck(Fault::ZeroCheckOnNonNat)),
                },
            },
            ASTNode::ValueNode { meta, value } => match value {
                Value::True => Ok(OutputValue::Bool(true)),
                Value::False => Ok(OutputValue::Bool(false)),
                Value::Zero => Ok(OutputValue::Nat(0)),
            },
            ASTNode::ProjectionNode { meta, target, attrib } => {
                match target.eval_node(table, fuel) {
                    Err(e) => Err(e),
                    Ok(v) => match v {
                        OutputValue::Record(entries) => {
                            proof {
                                lemma_value_entries(entries@);
                                lemma_as_map(value_entries(entries@), attrib@);
                            }
                            match find_last(&entries, attrib.as_str()) {
                                Some(i) => Ok(entries[i].1.clone()),
                                None => Err(EvalError::Stuck(Fault::MissingAttribute)),
                            }
                        },
                        _ => Err(EvalError::Stuck(Fault::ProjectionOnNonRecord)),
                    },
                }
            },
            ASTNode::RecordNode { meta, records } => match eval_entries(records, table, fuel) {
                Err(e) => Err(e),
                Ok(values) => Ok(OutputValue::Record(values)),
            },
            ASTNode::MatchingNode { meta, to_match, cases } => {
                match to_match.eval_node(table, fuel) {
                    Err(e) => Err(e),
                    Ok(v) => match v {
                        OutputValue::Variant(tag, payload) => {
                            proof {
                                lemma_case_entries(cases@);
                            }
                            match find_last(cases, tag.as_str()) {
                                Some(i) => {
                                    let inner = bound(table, &cases[i].1.0, *payload);
                                    cases[i].1.1.eval_node(&inner, fuel)
                                },
                                None => Err(EvalError::Stuck(Fault::MissingArm)),
                            }
                        },
                        _ => Err(EvalError::Stuck(Fault::MatchOnNonVariant)),
                    },
                }
            },
            ASTNode::TaggingNode { meta, ident, value, data_type } => {
                match value.eval_node(table, fuel) {
                    Err(e) => Err(e),
                    Ok(v) => Ok(OutputValue::Variant(ident.clone(), Box::new(v))),
                }
            },
            ASTNode::FixNode { meta, point } => match point.eval_node(table, fuel) {
                Err(e) => Err(e),
                Ok(p) => match p {
                    OutputValue::Func(_, _, _) => step(&OutputValue::Fix(Box::new(p)), fuel),
                    _ => Err(EvalError::Stuck(Fault::FixOnNonFunction)),
                },
            },
        }
    }
}

/// Unrolls a recursive function by one step.
fn step(recursive: &OutputValue, fuel: usize) -> (out: Result<OutputValue, EvalError>)
    ensures
        delivers(out, unroll(recursive@, fuel as nat)),
    decreases fuel, 0nat, recursive,
{
    match recursive {
        OutputValue::Fix(inner) => match &**inner {
            OutputValue::Func(name, body, captured) => {
                if fuel == 0 {
                    return Err(EvalError::OutOfFuel);
                }
                let this = recursive.clone();
                let env = bound(captured, name, this);
                body.eval_node(&env, fuel - 1)
            },
            _ => {
                assert(!(inner@ is Func));
                Err(EvalError::Stuck(Fault::NotAFunction))
            },
        },
        _ => Err(EvalError::Stuck(Fault::NotAFunction)),
    }
}

/// Finds the closure that an application of `function` enters.
fn enter(function: OutputValue, fuel: usize) -> (out: Result<OutputValue, EvalError>)
    ensures
        delivers(out, callee(function@, fuel as nat)),
    decreases fuel, 1nat, function,
{
    match &function {
        OutputValue::Func(_, _, _) => Ok(function),
        OutputValue::Fix(_) => match step(&function, fuel) {
            Err(e) => Err(e),
            Ok(unrolled) => {
                if fuel == 0 {
                    return Err(EvalError::OutOfFuel);
                }
                enter(unrolled, fuel - 1)
            },
        },
        _ => Err(EvalError::Stuck(Fault::NotAFunction)),
    }
}

/// Evaluates the entries of a record in order.
fn eval_entries(records: &Vec<(String, ASTNode)>, table: &SymbolTable<OutputValue>, fuel: usize) -> (out:
    Result<Vec<(String, OutputValue)>, EvalError>)
    ensures
        match out {
            Ok(values) => eval_records(record_entries(records@), environment(table), fuel as nat)
                == Ok::<Seq<(Name, Val)>, EvalError>(value_entries(values@)),
            Err(e) => eval_records(record_entries(records@), environment(table), fuel as nat)
                == Err::<Seq<(Name, Val)>, EvalError>(e),
        },
    decreases fuel, 2nat, records,
{
    let ghost entries = record_entries(records@);
    let ghost env = environment(table);
    proof {
        lemma_record_entries(records@);
    }
    let mut values: Vec<(String, OutputValue)> = Vec::new();
    let mut i: usize = 0;
    while i < records.len()
        invariant
            i <= records.len(),
            entries == record_entries(records@),
            entries.len() == records.len(),
            env == environment(table),
            forall|k: int|
                0 <= k < records.len() ==> #[trigger] entries[k] == (
                    records@[k].0@,
                    records@[k].1@,
                ),
            eval_records(entries.take(i as int), env, fuel as nat) == Ok::<
                Seq<(Name, Val)>,
                EvalError,
            >(value_entries(values@)),
        decreases records.len() - i,
    {
        assert(entries.take(i + 1).drop_last() == entries.take(i as int));
        match records[i].1.eval_node(table, fuel) {
            Err(e) => {
                proof {
                    lemma_eval_records_error(entries, env, fuel as nat, i + 1);
                }
                return Err(e);
            },
            Ok(v) => {
                let ghost before = values@;
                values.push((records[i].0.clone(), v));
                assert(values@.drop_last() == before);
            },
        }
        i = i + 1;
    }
    assert(entries.take(i as int) == entries);
    Ok(values)
}

} // verus!
