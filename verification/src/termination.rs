//! Termination: a tree without fixpoints that the checker accepts evaluates,
//! with enough fuel, to a value of its type, unless a successor overflows.

use crate::assoc::{as_map, lemma_as_map, lemma_position, names_of, position};
use crate::ast::{Name, Term, Ty, Type};
use crate::check::{covers, type_of, types_of_records, Context};
use crate::eval::{callee, eval_records, eval_term, Env, EvalError, Val};
use crate::fuel::{lemma_more_fuel, lemma_more_fuel_records};
use crate::safety::lemma_arms_typed;
use crate::sym_tab::innermost;
use vstd::prelude::*;

verus! {

/// The term holds no fixpoint.
pub open spec fn fix_free(term: Term) -> bool
    decreases term,
{
    match term {
        Term::Literal { meta, value } => true,
        Term::Identifier { meta, name } => true,
        Term::IsZero { meta, expr } => fix_free(*expr),
        Term::Arithmetic { meta, op, expr } => fix_free(*expr),
        Term::Condition { meta, clause, then_arm, else_arm } => fix_free(*clause) && fix_free(
            *then_arm,
        ) && fix_free(*else_arm),
        Term::Application { meta, left, right } => fix_free(*left) && fix_free(*right),
        Term::Abstraction { meta, ident, data_type, body } => fix_free(*body),
        Term::Projection { meta, target, attrib } => fix_free(*target),
        Term::Record { meta, records } => forall|i: int|
            0 <= i < records.len() ==> fix_free(#[trigger] records[i].1),
        Term::Matching { meta, to_match, cases } => fix_free(*to_match) && forall|i: int|
            0 <= i < cases.len() ==> fix_free((#[trigger] cases[i]).1.1),
        Term::Tagging { meta, ident, value, data_type } => fix_free(*value),
        Term::Fix { meta, point } => false,
    }
}

/// The evaluation of a term, under a name of its own.
pub open spec fn run(term: Term, env: Env, fuel: nat) -> Result<Val, EvalError> {
    eval_term(term, env, fuel)
}

/// The environment is the captured one with the parameter bound on top.
pub open spec fn binds_argument(entered: Env, captured: Env, param: Name) -> bool {
    entered.len() == captured.len() + 1 && entered.drop_last() == captured && entered.last().0
        == param
}

/// The outcome is a value that halts at the type, or an overflow.
pub open spec fn ends_at(out: Result<Val, EvalError>, t: Ty) -> bool
    decreases t, 1nat,
{
    match out {
        Ok(v) => halting(v, t),
        Err(e) => e == EvalError::Overflow,
    }
}

/// The value is of the type, and whatever is done with it at that type comes
/// to an end: a closure, applied to any argument that halts at the domain,
/// ends at the codomain with enough fuel.
pub open spec fn halting(v: Val, t: Ty) -> bool
    decreases t, 0nat,
{
    match t {
        Ty::Single(base) => match base {
            Type::Nat => v is Nat,
            Type::Bool => v is Bool,
        },
        Ty::Arrow(from, to) => match v {
            Val::Func(param, body, captured) => forall|entered: Env| #[trigger]
                binds_argument(entered, captured, param) && halting(entered.last().1, *from)
                    ==> exists|fuel: nat|
                    #![trigger run(body, entered, fuel)]
                    ends_at(run(body, entered, fuel), *to),
            _ => false,
        },
        Ty::Record(types) => match v {
            Val::Record(fields) => fields.dom() == types.dom() && forall|name: Name| #[trigger]
                types.dom().contains(name) ==> halting(fields[name], types[name]),
            _ => false,
        },
        Ty::Variant(alternatives) => match v {
            Val::Variant(tag, payload) => alternatives.dom().contains(tag) && halting(
                *payload,
                alternatives[tag],
            ),
            _ => false,
        },
    }
}

/// The environment binds the names of the context, in its order, each to a
/// value that halts at the type that the context gives.
pub open spec fn env_halting(env: Env, ctx: Context) -> bool {
    env.len() == ctx.len() && forall|i: int|
        0 <= i < env.len() ==> (#[trigger] env[i]).0 == ctx[i].0 && halting(env[i].1, ctx[i].1)
}

/// A halting environment gives every name that the context binds a value
/// that halts at the bound type.
pub proof fn lemma_halting_lookup(env: Env, ctx: Context, name: Name)
    requires
        env_halting(env, ctx),
    ensures
        match innermost(ctx, name) {
            Some(t) => innermost(env, name) is Some && halting(innermost(env, name)->Some_0, t),
            None => innermost(env, name) is None,
        },
    decreases env.len(),
{
    if env.len() > 0 {
        assert(env.last() == env[env.len() - 1]);
        assert(env.last().0 == ctx.last().0);
        if ctx.last().0 != name {
            assert forall|i: int| 0 <= i < env.drop_last().len() implies (
            #[trigger] env.drop_last()[i]).0 == ctx.drop_last()[i].0 && halting(
                env.drop_last()[i].1,
                ctx.drop_last()[i].1,
            ) by {
                assert(env.drop_last()[i] == env[i]);
            }
            lemma_halting_lookup(env.drop_last(), ctx.drop_last(), name);
        }
    }
}

/// A halting environment stays halting when a halting binding is added.
pub proof fn lemma_halting_push(env: Env, ctx: Context, name: Name, v: Val, t: Ty)
    requires
        env_halting(env, ctx),
        halting(v, t),
    ensures
        env_halting(env.push((name, v)), ctx.push((name, t))),
{
    let env2 = env.push((name, v));
    let ctx2 = ctx.push((name, t));
    assert forall|i: int| 0 <= i < env2.len() implies (#[trigger] env2[i]).0 == ctx2[i].0
        && halting(env2[i].1, ctx2[i].1) by {
        if i < env.len() {
            assert(env2[i] == env[i]);
        }
    }
}

/// Where the entries of a record value have, one by one, the names of the
/// entries of a record type and halt at their types, the record halts at the
/// record type.
pub proof fn lemma_record_halting(values: Seq<(Name, Val)>, types: Seq<(Name, Ty)>)
    requires
        values.len() == types.len(),
        forall|i: int|
            0 <= i < values.len() ==> (#[trigger] values[i]).0 == types[i].0 && halting(
                values[i].1,
                types[i].1,
            ),
    ensures
        halting(Val::Record(as_map(values)), Ty::Record(as_map(types))),
{
    let fields = as_map(values);
    let field_types = as_map(types);
    assert(names_of(values) =~= names_of(types));
    assert forall|name: Name| fields.dom().contains(name) <==> field_types.dom().contains(
        name,
    ) by {
        lemma_as_map(values, name);
        lemma_as_map(types, name);
    }
    assert(fields.dom() =~= field_types.dom());
    assert forall|name: Name| #[trigger] field_types.dom().contains(name) implies halting(
        fields[name],
        field_types[name],
    ) by {
        lemma_as_map(values, name);
        lemma_as_map(types, name);
        lemma_position(names_of(values), name);
        let i = position(names_of(values), name)->Some_0;
        assert(halting(values[i].1, types[i].1));
    }
}

/// A closure halts at a function type where its body, entered with any
/// argument that halts at the domain, ends at the codomain.
pub proof fn lemma_closure_halting(param: Name, body: Term, captured: Env, from: Ty, to: Ty)
    requires
        forall|arg: Val| #[trigger]
            halting(arg, from) ==> exists|fuel: nat|
                #![trigger run(body, captured.push((param, arg)), fuel)]
                ends_at(run(body, captured.push((param, arg)), fuel), to),
    ensures
        halting(Val::Func(param, body, captured), Ty::Arrow(Box::new(from), Box::new(to))),
{
    assert forall|entered: Env| #[trigger]
        binds_argument(entered, captured, param) && halting(
            entered.last().1,
            from,
        ) implies exists|fuel: nat|
        #![trigger run(body, entered, fuel)]
        ends_at(run(body, entered, fuel), to) by {
        let arg = entered.last().1;
        assert(entered =~= captured.push((param, arg)));
    }
}

/// A closure that halts at a function type, entered with an argument that
/// halts at the domain, ends at the codomain: the lemma gives the fuel.
pub proof fn lemma_call_halts(closure: Val, arg: Val, from: Ty, to: Ty) -> (fuel: nat)
    requires
        closure is Func,
        halting(closure, Ty::Arrow(Box::new(from), Box::new(to))),
        halting(arg, from),
    ensures
        ends_at(eval_term(closure->Func_1, closure->Func_2.push((closure->Func_0, arg)), fuel), to),
{
    let entered = closure->Func_2.push((closure->Func_0, arg));
    assert(entered.drop_last() =~= closure->Func_2);
    assert(binds_argument(entered, closure->Func_2, closure->Func_0));
    choose|fuel: nat|
        #![trigger run(closure->Func_1, entered, fuel)]
        ends_at(run(closure->Func_1, entered, fuel), to)
}

/// The greater of two amounts of fuel.
pub open spec fn more_of(a: nat, b: nat) -> nat {
    if a >= b {
        a
    } else {
        b
    }
}

/// In a halting environment, a term without fixpoints that has a type ends
/// at that type with enough fuel: the lemma gives such an amount.
pub proof fn lemma_halts(term: Term, ctx: Context, env: Env) -> (fuel: nat)
    requires
        env_halting(env, ctx),
        type_of(term, ctx) is Ok,
        fix_free(term),
    ensures
        ends_at(eval_term(term, env, fuel), type_of(term, ctx)->Ok_0),
    decreases term,
{
    let t = type_of(term, ctx)->Ok_0;
    match term {
        Term::Literal { meta, value } => 0,
        Term::Identifier { meta, name } => {
            lemma_halting_lookup(env, ctx, name);
            0
        },
        Term::IsZero { meta, expr } => lemma_halts(*expr, ctx, env),
        Term::Arithmetic { meta, op, expr } => lemma_halts(*expr, ctx, env),
        Term::Condition { meta, clause, then_arm, else_arm } => {
            let f1 = lemma_halts(*clause, ctx, env);
            match eval_term(*clause, env, f1) {
                Ok(Val::Bool(b)) => {
                    let f2 = if b {
                        lemma_halts(*then_arm, ctx, env)
                    } else {
                        lemma_halts(*else_arm, ctx, env)
                    };
                    let fuel = more_of(f1, f2);
                    lemma_more_fuel(*clause, env, f1, fuel);
                    if b {
                        lemma_more_fuel(*then_arm, env, f2, fuel);
                    } else {
                        lemma_more_fuel(*else_arm, env, f2, fuel);
                    }
                    fuel
                },
                _ => f1,
            }
        },
        Term::Abstraction { meta, ident, data_type, body } => {
            let to = type_of(*body, ctx.push((ident, data_type)))->Ok_0;
            assert forall|arg: Val| #[trigger] halting(arg, data_type) implies exists|fuel: nat|
                #![trigger run(*body, env.push((ident, arg)), fuel)]
                ends_at(run(*body, env.push((ident, arg)), fuel), to) by {
                lemma_halting_push(env, ctx, ident, arg, data_type);
                let f = lemma_halts(*body, ctx.push((ident, data_type)), env.push((ident, arg)));
                assert(ends_at(run(*body, env.push((ident, arg)), f), to));
            }
            lemma_closure_halting(ident, *body, env, data_type, to);
            0
        },
        Term::Application { meta, left, right } => {
            let f1 = lemma_halts(*left, ctx, env);
            let f2 = lemma_halts(*right, ctx, env);
            match eval_term(*left, env, f1) {
                Ok(Val::Func(param, body, captured)) => {
                    let closure = Val::Func(param, body, captured);
                    match eval_term(*right, env, f2) {
                        Ok(arg) => {
                            let from = *type_of(*left, ctx)->Ok_0->Arrow_0;
                            assert(type_of(*left, ctx)->Ok_0 == Ty::Arrow(
                                Box::new(from),
                                Box::new(t),
                            ));
                            let f3 = lemma_call_halts(closure, arg, from, t);
                            let fuel = more_of(more_of(f1, f2), f3 + 1);
                            lemma_more_fuel(*left, env, f1, fuel);
                            lemma_more_fuel(*right, env, f2, fuel);
                            lemma_more_fuel(
                                body,
                                captured.push((param, arg)),
                                f3,
                                (fuel - 1) as nat,
                            );
                            assert(callee(closure, fuel) == Ok::<Val, EvalError>(closure));
                            fuel
                        },
                        Err(e) => {
                            let fuel = more_of(f1, f2);
                            lemma_more_fuel(*left, env, f1, fuel);
                            lemma_more_fuel(*right, env, f2, fuel);
                            assert(callee(closure, fuel) == Ok::<Val, EvalError>(closure));
                            fuel
                        },
                    }
                },
                _ => f1,
            }
        },
        Term::Projection { meta, target, attrib } => lemma_halts(*target, ctx, env),
        Term::Record { meta, records } => {
            let fuel = lemma_records_halt(records, ctx, env);
            if let Ok(values) = eval_records(records, env, fuel) {
                lemma_record_halting(values, types_of_records(records, ctx)->Ok_0);
            }
            fuel
        },
        Term::Matching { meta, to_match, cases } => {
            let f1 = lemma_halts(*to_match, ctx, env);
            match eval_term(*to_match, env, f1) {
                Ok(Val::Variant(tag, payload)) => {
                    let alternatives = type_of(*to_match, ctx)->Ok_0->Variant_0;
                    assert(covers(cases, alternatives));
                    assert(alternatives.dom().contains(tag));
                    lemma_as_map(cases, tag);
                    lemma_position(names_of(cases), tag);
                    let i = position(names_of(cases), tag)->Some_0;
                    assert(cases[i].0 == tag);
                    lemma_arms_typed(cases, alternatives, ctx, meta, i);
                    lemma_halting_push(env, ctx, cases[i].1.0, *payload, alternatives[tag]);
                    let f2 = lemma_halts(
                        cases[i].1.1,
                        ctx.push((cases[i].1.0, alternatives[tag])),
                        env.push((cases[i].1.0, *payload)),
                    );
                    let fuel = more_of(f1, f2);
                    lemma_more_fuel(*to_match, env, f1, fuel);
                    lemma_more_fuel(cases[i].1.1, env.push((cases[i].1.0, *payload)), f2, fuel);
                    fuel
                },
                _ => f1,
            }
        },
        Term::Tagging { meta, ident, value, data_type } => lemma_halts(*value, ctx, env),
        Term::Fix { meta, point } => 0,
    }
}

/// The entries of a record without fixpoints end, with enough fuel, at the
/// types of the record type's entries, one by one.
pub proof fn lemma_records_halt(records: Seq<(Name, Term)>, ctx: Context, env: Env) -> (fuel: nat)
    requires
        env_halting(env, ctx),
        types_of_records(records, ctx) is Ok,
        forall|i: int| 0 <= i < records.len() ==> fix_free(#[trigger] records[i].1),
    ensures
        match eval_records(records, env, fuel) {
            Ok(values) => {
                let types = types_of_records(records, ctx)->Ok_0;
                values.len() == types.len() && forall|i: int|
                    0 <= i < values.len() ==> (#[trigger] values[i]).0 == types[i].0 && halting(
                        values[i].1,
                        types[i].1,
                    )
            },
            Err(e) => e == EvalError::Overflow,
        },
    decreases records,
{
    if records.len() == 0 {
        0
    } else {
        let front = records.drop_last();
        assert forall|i: int| 0 <= i < front.len() implies fix_free(#[trigger] front[i].1) by {
            assert(front[i] == records[i]);
        }
        assert(records.last() == records[records.len() - 1]);
        let f1 = lemma_records_halt(front, ctx, env);
        match eval_records(front, env, f1) {
            Ok(front_values) => {
                let f2 = lemma_halts(records.last().1, ctx, env);
                let fuel = more_of(f1, f2);
                lemma_more_fuel_records(front, env, f1, fuel);
                lemma_more_fuel(records.last().1, env, f2, fuel);
                if let Ok(values) = eval_records(records, env, fuel) {
                    let types = types_of_records(records, ctx)->Ok_0;
                    let front_types = types_of_records(front, ctx)->Ok_0;
                    assert forall|i: int| 0 <= i < values.len() implies (#[trigger] values[i]).0
                        == types[i].0 && halting(values[i].1, types[i].1) by {
                        if i < values.len() - 1 {
                            assert(values[i] == front_values[i]);
                            assert(types[i] == front_types[i]);
                        }
                    }
                }
                fuel
            },
            Err(e) => f1,
        }
    }
}

/// Termination of programs without recursion: a tree without fixpoints that
/// has a type under no bindings evaluates, with enough fuel, to a value or
/// to an overflow. The lemma gives such an amount of fuel; any more gives the
/// same outcome.
pub proof fn lemma_programs_without_fixpoints_halt(term: Term) -> (fuel: nat)
    requires
        type_of(term, Seq::empty()) is Ok,
        fix_free(term),
    ensures
        eval_term(term, Seq::empty(), fuel) is Ok || eval_term(term, Seq::empty(), fuel) == Err::<
            Val,
            EvalError,
        >(EvalError::Overflow),
        forall|more: nat|
            fuel <= more ==> #[trigger] eval_term(term, Seq::empty(), more) == eval_term(
                term,
                Seq::empty(),
                fuel,
            ),
{
    let fuel = lemma_halts(term, Seq::empty(), Seq::empty());
    assert forall|more: nat| fuel <= more implies #[trigger] eval_term(term, Seq::empty(), more)
        == eval_term(term, Seq::empty(), fuel) by {
        lemma_more_fuel(term, Seq::empty(), fuel, more);
    }
    fuel
}

} // verus!
