//! Type safety: a tree that the checker accepts, and whose recursion is
//! guarded, never brings the evaluator to a shape that the typing rules
//! exclude, and what it evaluates to has the type that the checker gave.

use crate::assoc::{as_map, lemma_as_map, lemma_as_map_finite, lemma_position, names_of, position};
use crate::ast::{
    case_entries, lemma_case_entries, lemma_record_entries, record_entries, ASTNode, Name, Span,
    Term, Ty, Type, TypeAssignment,
};
use crate::check::{covers, type_of, type_of_arms, types_of_records, Context, TypeError};
use crate::eval::{callee, eval_records, eval_term, unroll, Env, EvalError, Val};
use crate::sym_tab::innermost;
use vstd::prelude::*;

verus! {

/// Every fixpoint in the term is taken of an abstraction whose parameter has a
/// function type: recursion defines functions only.
pub open spec fn recursion_guarded(term: Term) -> bool
    decreases term,
{
    match term {
        Term::Literal { meta, value } => true,
        Term::Identifier { meta, name } => true,
        Term::IsZero { meta, expr } => recursion_guarded(*expr),
        Term::Arithmetic { meta, op, expr } => recursion_guarded(*expr),
        Term::Condition { meta, clause, then_arm, else_arm } => recursion_guarded(*clause)
            && recursion_guarded(*then_arm) && recursion_guarded(*else_arm),
        Term::Application { meta, left, right } => recursion_guarded(*left) && recursion_guarded(
            *right,
        ),
        Term::Abstraction { meta, ident, data_type, body } => recursion_guarded(*body),
        Term::Projection { meta, target, attrib } => recursion_guarded(*target),
        Term::Record { meta, records } => forall|i: int|
            0 <= i < records.len() ==> recursion_guarded(#[trigger] records[i].1),
        Term::Matching { meta, to_match, cases } => recursion_guarded(*to_match) && forall|i: int|
            0 <= i < cases.len() ==> recursion_guarded((#[trigger] cases[i]).1.1),
        Term::Tagging { meta, ident, value, data_type } => recursion_guarded(*value),
        Term::Fix { meta, point } => match *point {
            Term::Abstraction { meta, ident, data_type, body } => data_type is Arrow
                && recursion_guarded(*body),
            _ => false,
        },
    }
}

/// Whether the recursion of every entry of a record is guarded.
fn records_guarded(records: &Vec<(String, ASTNode)>) -> (guarded: bool)
    ensures
        guarded == forall|i: int|
            0 <= i < record_entries(records@).len() ==> recursion_guarded(
                #[trigger] record_entries(records@)[i].1,
            ),
    decreases records, 0nat,
{
    proof {
        lemma_record_entries(records@);
    }
    let mut i: usize = 0;
    while i < records.len()
        invariant
            i <= records.len(),
            record_entries(records@).len() == records.len(),
            forall|k: int|
                0 <= k < records.len() ==> #[trigger] record_entries(records@)[k] == (
                    records@[k].0@,
                    records@[k].1@,
                ),
            forall|k: int|
                0 <= k < i ==> recursion_guarded(#[trigger] record_entries(records@)[k].1),
        decreases records.len() - i,
    {
        if !records[i].1.has_guarded_recursion() {
            assert(!recursion_guarded(record_entries(records@)[i as int].1));
            return false;
        }
        i = i + 1;
    }
    true
}

/// Whether the recursion of every arm of a match is guarded.
fn cases_guarded(cases: &Vec<(String, (String, Box<ASTNode>))>) -> (guarded: bool)
    ensures
        guarded == forall|i: int|
            0 <= i < case_entries(cases@).len() ==> recursion_guarded(
                (#[trigger] case_entries(cases@)[i]).1.1,
            ),
    decreases cases, 0nat,
{
    proof {
        lemma_case_entries(cases@);
    }
    let mut i: usize = 0;
    while i < cases.len()
        invariant
            i <= cases.len(),
            case_entries(cases@).len() == cases.len(),
            forall|k: int|
                0 <= k < cases.len() ==> #[trigger] case_entries(cases@)[k] == (
                    cases@[k].0@,
                    (cases@[k].1.0@, cases@[k].1.1@),
                ),
            forall|k: int|
                0 <= k < i ==> recursion_guarded((#[trigger] case_entries(cases@)[k]).1.1),
        decreases cases.len() - i,
    {
        if !cases[i].1.1.has_guarded_recursion() {
            assert(!recursion_guarded(case_entries(cases@)[i as int].1.1));
            return false;
        }
        i = i + 1;
    }
    true
}

impl ASTNode {
    /// Whether every fixpoint in the tree is taken of an abstraction whose
    /// parameter has a function type. A tree that the checker accepts then
    /// evaluates without a fault.
    pub fn has_guarded_recursion(&self) -> (guarded: bool)
        ensures
            guarded == recursion_guarded(self@),
        decreases self, 1nat,
    {
        match self {
            ASTNode::ValueNode { meta, value } => true,
            ASTNode::IdentifierNode { meta, name } => true,
            ASTNode::IsZeroNode { meta, expr } => expr.has_guarded_recursion(),
            ASTNode::ArithmeticNode { meta, op, expr } => expr.has_guarded_recursion(),
            ASTNode::ConditionNode { meta, clause, then_arm, else_arm } => {
                clause.has_guarded_recursion() && then_arm.has_guarded_recursion()
                    && else_arm.has_guarded_recursion()
            },
            ASTNode::ApplicationNode { meta, left, right } => {
                left.has_guarded_recursion() && right.has_guarded_recursion()
            },
            ASTNode::AbstractionNode { meta, ident, data_type, body } => {
                body.has_guarded_recursion()
            },
            ASTNode::ProjectionNode { meta, target, attrib } => target.has_guarded_recursion(),
            ASTNode::RecordNode { meta, records } => {
                assert(self@->Record_records == record_entries(records@));
                records_guarded(records)
            },
            ASTNode::MatchingNode { meta, to_match, cases } => {
                assert(self@->Matching_cases == case_entries(cases@));
                to_match.has_guarded_recursion() && cases_guarded(cases)
            },
            ASTNode::TaggingNode { meta, ident, value, data_type } => {
                value.has_guarded_recursion()
            },
            ASTNode::FixNode { meta, point } => {
                assert(self@->Fix_point == Box::new(point@));
                match &**point {
                    ASTNode::AbstractionNode { meta, ident, data_type, body } => {
                        assert(point@->Abstraction_data_type == data_type@);
                        assert(point@->Abstraction_body == Box::new(body@));
                        match data_type {
                            TypeAssignment::Arrow(_, _) => body.has_guarded_recursion(),
                            _ => false,
                        }
                    },
                    _ => {
                        assert(!(point@ is Abstraction));
                        false
                    },
                }
            },
        }
    }
}

/// The value has the type. A closure has a function type where its body has
/// the codomain under some typing of the captured environment, with the
/// parameter at the domain. A recursive function has a function type where
/// the body of its functional has that type, with the parameter at that type.
pub open spec fn has_type(v: Val, t: Ty) -> bool
    decreases v,
{
    match v {
        Val::Nat(n) => t == Ty::Single(Type::Nat),
        Val::Bool(b) => t == Ty::Single(Type::Bool),
        Val::Func(param, body, captured) => match t {
            Ty::Arrow(from, to) => exists|ctx: Context|
                env_typed(captured, ctx) && type_of(body, #[trigger] ctx.push((param, *from)))
                    == Ok::<Ty, TypeError>(*to) && recursion_guarded(body),
            _ => false,
        },
        Val::Record(fields) => match t {
            Ty::Record(types) => fields.dom().finite() && fields.dom() == types.dom()
                && forall|name: Name| #[trigger]
                fields.dom().contains(name) ==> has_type(fields[name], types[name]),
            _ => false,
        },
        Val::Variant(tag, payload) => match t {
            Ty::Variant(alternatives) => alternatives.dom().contains(tag) && has_type(
                *payload,
                alternatives[tag],
            ),
            _ => false,
        },
        Val::Fix(inner) => match *inner {
            Val::Func(name, body, captured) => t is Arrow && exists|ctx: Context|
                env_typed(captured, ctx) && type_of(body, #[trigger] ctx.push((name, t))) == Ok::<
                    Ty,
                    TypeError,
                >(t) && recursion_guarded(body),
            _ => false,
        },
    }
}

/// The environment binds the names of the context, in its order, each to a
/// value of the type that the context gives.
pub open spec fn env_typed(env: Env, ctx: Context) -> bool
    decreases env,
{
    env.len() == ctx.len() && forall|i: int|
        0 <= i < env.len() ==> (#[trigger] env[i]).0 == ctx[i].0 && has_type(env[i].1, ctx[i].1)
}

/// The outcome is no fault, and where it is a value, the value has the type.
pub open spec fn safe_at(out: Result<Val, EvalError>, t: Ty) -> bool {
    match out {
        Ok(v) => has_type(v, t),
        Err(e) => e !is Stuck,
    }
}

/// A typed environment gives every name that the context binds a value of
/// the bound type, and binds no other name.
pub proof fn lemma_env_lookup(env: Env, ctx: Context, name: Name)
    requires
        env_typed(env, ctx),
    ensures
        match innermost(ctx, name) {
            Some(t) => innermost(env, name) is Some && has_type(innermost(env, name)->Some_0, t),
            None => innermost(env, name) is None,
        },
    decreases env.len(),
{
    if env.len() > 0 {
        assert(env.last() == env[env.len() - 1]);
        assert(env.last().0 == ctx.last().0);
        if ctx.last().0 != name {
            assert forall|i: int| 0 <= i < env.drop_last().len() implies (
            #[trigger] env.drop_last()[i]).0 == ctx.drop_last()[i].0 && has_type(
                env.drop_last()[i].1,
                ctx.drop_last()[i].1,
            ) by {
                assert(env.drop_last()[i] == env[i]);
            }
            lemma_env_lookup(env.drop_last(), ctx.drop_last(), name);
        }
    }
}

/// A typed environment stays typed when a typed binding is added.
pub proof fn lemma_env_push(env: Env, ctx: Context, name: Name, v: Val, t: Ty)
    requires
        env_typed(env, ctx),
        has_type(v, t),
    ensures
        env_typed(env.push((name, v)), ctx.push((name, t))),
{
    let env2 = env.push((name, v));
    let ctx2 = ctx.push((name, t));
    assert forall|i: int| 0 <= i < env2.len() implies (#[trigger] env2[i]).0 == ctx2[i].0
        && has_type(env2[i].1, ctx2[i].1) by {
        if i < env.len() {
            assert(env2[i] == env[i]);
        }
    }
}

/// Where the entries of a record value have, one by one, the names and the
/// types of the entries of a record type, the record has the record type.
pub proof fn lemma_record_typed(values: Seq<(Name, Val)>, types: Seq<(Name, Ty)>)
    requires
        values.len() == types.len(),
        forall|i: int|
            0 <= i < values.len() ==> (#[trigger] values[i]).0 == types[i].0 && has_type(
                values[i].1,
                types[i].1,
            ),
    ensures
        has_type(Val::Record(as_map(values)), Ty::Record(as_map(types))),
{
    let fields = as_map(values);
    let field_types = as_map(types);
    lemma_as_map_finite(values);
    assert(names_of(values) =~= names_of(types));
    assert forall|name: Name| fields.dom().contains(name) <==> field_types.dom().contains(
        name,
    ) by {
        lemma_as_map(values, name);
        lemma_as_map(types, name);
    }
    assert(fields.dom() =~= field_types.dom());
    assert forall|name: Name| #[trigger] fields.dom().contains(name) implies has_type(
        fields[name],
        field_types[name],
    ) by {
        lemma_as_map(values, name);
        lemma_as_map(types, name);
        lemma_position(names_of(values), name);
        let i = position(names_of(values), name)->Some_0;
        assert(has_type(values[i].1, types[i].1));
    }
}

/// Where the arms of a match have a common type, every arm whose case names
/// an alternative has that type, with the case's identifier bound to the
/// alternative's type.
pub proof fn lemma_arms_typed(
    cases: Seq<(Name, (Name, Term))>,
    alternatives: Map<Name, Ty>,
    ctx: Context,
    meta: Span,
    i: int,
)
    requires
        type_of_arms(cases, alternatives, ctx, meta) is Ok,
        0 <= i < cases.len(),
        alternatives.dom().contains(cases[i].0),
    ensures
        type_of_arms(cases, alternatives, ctx, meta)->Ok_0 is Some,
        type_of(cases[i].1.1, ctx.push((cases[i].1.0, alternatives[cases[i].0]))) == Ok::<
            Ty,
            TypeError,
        >(type_of_arms(cases, alternatives, ctx, meta)->Ok_0->Some_0),
    decreases cases.len(),
{
    let front = cases.drop_last();
    if i < cases.len() - 1 {
        assert(front[i] == cases[i]);
        lemma_arms_typed(front, alternatives, ctx, meta, i);
    }
}

/// The recursion of the entries of a guarded record is guarded.
proof fn lemma_guarded_front(records: Seq<(Name, Term)>)
    requires
        records.len() > 0,
        forall|i: int| 0 <= i < records.len() ==> recursion_guarded(#[trigger] records[i].1),
    ensures
        forall|i: int|
            0 <= i < records.drop_last().len() ==> recursion_guarded(
                #[trigger] records.drop_last()[i].1,
            ),
        recursion_guarded(records.last().1),
{
    assert forall|i: int| 0 <= i < records.drop_last().len() implies recursion_guarded(
        #[trigger] records.drop_last()[i].1,
    ) by {
        assert(records.drop_last()[i] == records[i]);
    }
    assert(records.last() == records[records.len() - 1]);
}

/// Type safety. In an environment that is typed by the context, a term that
/// has a type and whose recursion is guarded never evaluates to a fault,
/// however much fuel it is given; and where it evaluates to a value, the value
/// has the term's type.
pub proof fn lemma_safe(term: Term, ctx: Context, env: Env, fuel: nat)
    requires
        env_typed(env, ctx),
        type_of(term, ctx) is Ok,
        recursion_guarded(term),
    ensures
        safe_at(eval_term(term, env, fuel), type_of(term, ctx)->Ok_0),
    decreases fuel, 2nat, term,
{
    match term {
        Term::Literal { meta, value } => {},
        Term::IsZero { meta, expr } => {
            lemma_safe(*expr, ctx, env, fuel);
        },
        Term::Arithmetic { meta, op, expr } => {
            lemma_safe(*expr, ctx, env, fuel);
        },
        Term::Condition { meta, clause, then_arm, else_arm } => {
            lemma_safe(*clause, ctx, env, fuel);
            lemma_safe(*then_arm, ctx, env, fuel);
            lemma_safe(*else_arm, ctx, env, fuel);
        },
        Term::Identifier { meta, name } => {
            lemma_env_lookup(env, ctx, name);
        },
        Term::Abstraction { meta, ident, data_type, body } => {
            assert(env_typed(env, ctx));
        },
        Term::Application { meta, left, right } => {
            lemma_safe(*left, ctx, env, fuel);
            lemma_safe(*right, ctx, env, fuel);
            let function_type = type_of(*left, ctx)->Ok_0;
            if let Ok(l) = eval_term(*left, env, fuel) {
                lemma_callee_safe(l, function_type, fuel);
                if let Ok(f) = callee(l, fuel) {
                    if let Ok(arg) = eval_term(*right, env, fuel) {
                        if fuel > 0 {
                            lemma_call_safe(f, arg, function_type, (fuel - 1) as nat);
                        }
                    }
                }
            }
        },
        Term::Projection { meta, target, attrib } => {
            lemma_safe(*target, ctx, env, fuel);
        },
        Term::Record { meta, records } => {
            lemma_records_safe(records, ctx, env, fuel);
            if let Ok(values) = eval_records(records, env, fuel) {
                lemma_record_typed(values, types_of_records(records, ctx)->Ok_0);
            }
        },
        Term::Matching { meta, to_match, cases } => {
            lemma_safe(*to_match, ctx, env, fuel);
            if let Ok(v) = eval_term(*to_match, env, fuel) {
                let alternatives = type_of(*to_match, ctx)->Ok_0->Variant_0;
                let tag = v->Variant_0;
                let payload = *v->Variant_1;
                assert(covers(cases, alternatives));
                assert(alternatives.dom().contains(tag));
                lemma_as_map(cases, tag);
                lemma_position(names_of(cases), tag);
                let i = position(names_of(cases), tag)->Some_0;
                assert(cases[i].0 == tag);
                lemma_arms_typed(cases, alternatives, ctx, meta, i);
                lemma_env_push(env, ctx, cases[i].1.0, payload, alternatives[tag]);
                lemma_safe(
                    cases[i].1.1,
                    ctx.push((cases[i].1.0, alternatives[tag])),
                    env.push((cases[i].1.0, payload)),
                    fuel,
                );
            }
        },
        Term::Tagging { meta, ident, value, data_type } => {
            lemma_safe(*value, ctx, env, fuel);
        },
        Term::Fix { meta, point } => {
            lemma_safe(*point, ctx, env, fuel);
            if let Ok(p) = eval_term(*point, env, fuel) {
                let t = type_of(term, ctx)->Ok_0;
                assert(has_type(Val::Fix(Box::new(p)), t)) by {
                    assert(env_typed(env, ctx));
                }
                lemma_unroll_safe(Val::Fix(Box::new(p)), t, fuel);
            }
        },
    }
}

/// Type safety of whole programs: a tree that has a type under no bindings,
/// and whose recursion is guarded, never evaluates to a fault, and where it
/// evaluates to a value, the value has the tree's type.
pub proof fn lemma_checked_programs_are_safe(term: Term, fuel: nat)
    requires
        type_of(term, Seq::empty()) is Ok,
        recursion_guarded(term),
    ensures
        safe_at(eval_term(term, Seq::empty(), fuel), type_of(term, Seq::empty())->Ok_0),
{
    lemma_safe(term, Seq::empty(), Seq::empty(), fuel);
}

/// Entering the body of a typed closure with a typed argument is safe.
pub proof fn lemma_call_safe(f: Val, arg: Val, t: Ty, fuel: nat)
    requires
        f is Func,
        t is Arrow,
        has_type(f, t),
        has_type(arg, *t->Arrow_0),
    ensures
        safe_at(eval_term(f->Func_1, f->Func_2.push((f->Func_0, arg)), fuel), *t->Arrow_1),
    decreases fuel, 3nat, f,
{
    match (f, t) {
        (Val::Func(param, body, captured), Ty::Arrow(from, to)) => {
            let ctx = choose|ctx: Context|
                env_typed(captured, ctx) && type_of(body, #[trigger] ctx.push((param, *from)))
                    == Ok::<Ty, TypeError>(*to) && recursion_guarded(body);
            lemma_env_push(captured, ctx, param, arg, *from);
            lemma_safe(body, ctx.push((param, *from)), captured.push((param, arg)), fuel);
        },
        _ => {},
    }
}

/// Unrolling a typed recursive function is safe, and gives a value of the
/// same type.
pub proof fn lemma_unroll_safe(recursive: Val, t: Ty, fuel: nat)
    requires
        recursive is Fix,
        has_type(recursive, t),
    ensures
        safe_at(unroll(recursive, fuel), t),
    decreases fuel, 0nat, recursive,
{
    match recursive {
        Val::Fix(inner) => match *inner {
            Val::Func(name, body, captured) => {
                if fuel > 0 {
                    let ctx = choose|ctx: Context|
                        env_typed(captured, ctx) && type_of(body, #[trigger] ctx.push((name, t)))
                            == Ok::<Ty, TypeError>(t) && recursion_guarded(body);
                    lemma_env_push(captured, ctx, name, recursive, t);
                    lemma_safe(
                        body,
                        ctx.push((name, t)),
                        captured.push((name, recursive)),
                        (fuel - 1) as nat,
                    );
                }
            },
            _ => {},
        },
        _ => {},
    }
}

/// Finding the closure that an application of a value of function type
/// enters is safe, and gives a closure of the same type.
pub proof fn lemma_callee_safe(function: Val, t: Ty, fuel: nat)
    requires
        t is Arrow,
        has_type(function, t),
    ensures
        match callee(function, fuel) {
            Ok(f) => f is Func && has_type(f, t),
            Err(e) => e !is Stuck,
        },
    decreases fuel, 1nat, function,
{
    if function is Fix {
        lemma_unroll_safe(function, t, fuel);
        if let Ok(unrolled) = unroll(function, fuel) {
            if fuel > 0 {
                lemma_callee_safe(unrolled, t, (fuel - 1) as nat);
            }
        }
    }
}

/// Evaluating the entries of a typed record is safe, and gives entries that
/// have, one by one, the names and the types of the record type's entries.
pub proof fn lemma_records_safe(records: Seq<(Name, Term)>, ctx: Context, env: Env, fuel: nat)
    requires
        env_typed(env, ctx),
        types_of_records(records, ctx) is Ok,
        forall|i: int| 0 <= i < records.len() ==> recursion_guarded(#[trigger] records[i].1),
    ensures
        match eval_records(records, env, fuel) {
            Ok(values) => {
                let types = types_of_records(records, ctx)->Ok_0;
                values.len() == types.len() && forall|i: int|
                    0 <= i < values.len() ==> (#[trigger] values[i]).0 == types[i].0 && has_type(
                        values[i].1,
                        types[i].1,
                    )
            },
            Err(e) => e !is Stuck,
        },
    decreases fuel, 2nat, records,
{
    if records.len() > 0 {
        lemma_guarded_front(records);
        lemma_records_safe(records.drop_last(), ctx, env, fuel);
        lemma_safe(records.last().1, ctx, env, fuel);
        if let Ok(values) = eval_records(records, env, fuel) {
            let types = types_of_records(records, ctx)->Ok_0;
            let front_values = eval_records(records.drop_last(), env, fuel)->Ok_0;
            let front_types = types_of_records(records.drop_last(), ctx)->Ok_0;
            assert forall|i: int| 0 <= i < values.len() implies (#[trigger] values[i]).0
                == types[i].0 && has_type(values[i].1, types[i].1) by {
                if i < values.len() - 1 {
                    assert(values[i] == front_values[i]);
                    assert(types[i] == front_types[i]);
                }
            }
        }
    }
}

} // verus!
