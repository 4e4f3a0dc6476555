//! Fuel bounds how deep calls nest, and nothing else: an evaluation that did
//! not run out of fuel gives the same outcome with any more fuel.

use crate::ast::{Name, Term};
use crate::eval::{callee, eval_records, eval_term, unroll, Env, EvalError, Val};
use vstd::prelude::*;

verus! {

/// The evaluation ended before its fuel did.
pub open spec fn settled<T>(out: Result<T, EvalError>) -> bool {
    out != Err::<T, EvalError>(EvalError::OutOfFuel)
}

/// An evaluation that did not run out of fuel gives the same outcome with
/// more fuel.
pub proof fn lemma_more_fuel(term: Term, env: Env, fuel: nat, more: nat)
    requires
        fuel <= more,
        settled(eval_term(term, env, fuel)),
    ensures
        eval_term(term, env, more) == eval_term(term, env, fuel),
    decreases fuel, 2nat, term,
{
    match term {
        Term::Literal { meta, value } => {},
        Term::Identifier { meta, name } => {},
        Term::Abstraction { meta, ident, data_type, body } => {},
        Term::IsZero { meta, expr } => {
            lemma_more_fuel(*expr, env, fuel, more);
        },
        Term::Arithmetic { meta, op, expr } => {
            lemma_more_fuel(*expr, env, fuel, more);
        },
        Term::Condition { meta, clause, then_arm, else_arm } => {
            lemma_more_fuel(*clause, env, fuel, more);
            if let Ok(Val::Bool(b)) = eval_term(*clause, env, fuel) {
                if b {
                    lemma_more_fuel(*then_arm, env, fuel, more);
                } else {
                    lemma_more_fuel(*else_arm, env, fuel, more);
                }
            }
        },
        Term::Application { meta, left, right } => {
            lemma_more_fuel(*left, env, fuel, more);
            if let Ok(l) = eval_term(*left, env, fuel) {
                lemma_more_fuel_callee(l, fuel, more);
                if let Ok(Val::Func(param, body, captured)) = callee(l, fuel) {
                    lemma_more_fuel(*right, env, fuel, more);
                    if let Ok(arg) = eval_term(*right, env, fuel) {
                        lemma_more_fuel(
                            body,
                            captured.push((param, arg)),
                            (fuel - 1) as nat,
                            (more - 1) as nat,
                        );
                    }
                }
            }
        },
        Term::Projection { meta, target, attrib } => {
            lemma_more_fuel(*target, env, fuel, more);
        },
        Term::Record { meta, records } => {
            lemma_more_fuel_records(records, env, fuel, more);
        },
        Term::Matching { meta, to_match, cases } => {
            lemma_more_fuel(*to_match, env, fuel, more);
            if let Ok(Val::Variant(tag, payload)) = eval_term(*to_match, env, fuel) {
                if let Some(i) = crate::assoc::position(crate::assoc::names_of(cases), tag) {
                    if 0 <= i < cases.len() {
                        lemma_more_fuel(
                            cases[i].1.1,
                            env.push((cases[i].1.0, *payload)),
                            fuel,
                            more,
                        );
                    }
                }
            }
        },
        Term::Tagging { meta, ident, value, data_type } => {
            lemma_more_fuel(*value, env, fuel, more);
        },
        Term::Fix { meta, point } => {
            lemma_more_fuel(*point, env, fuel, more);
            if let Ok(p) = eval_term(*point, env, fuel) {
                if p is Func {
                    lemma_more_fuel_unroll(Val::Fix(Box::new(p)), fuel, more);
                }
            }
        },
    }
}

/// An unrolling that did not run out of fuel gives the same outcome with
/// more fuel.
pub proof fn lemma_more_fuel_unroll(recursive: Val, fuel: nat, more: nat)
    requires
        fuel <= more,
        settled(unroll(recursive, fuel)),
    ensures
        unroll(recursive, more) == unroll(recursive, fuel),
    decreases fuel, 0nat, recursive,
{
    match recursive {
        Val::Fix(inner) => match *inner {
            Val::Func(name, body, captured) => {
                lemma_more_fuel(
                    body,
                    captured.push((name, recursive)),
                    (fuel - 1) as nat,
                    (more - 1) as nat,
                );
            },
            _ => {},
        },
        _ => {},
    }
}

/// Where the closure that an application enters was found before the fuel
/// ended, more fuel finds the same.
pub proof fn lemma_more_fuel_callee(function: Val, fuel: nat, more: nat)
    requires
        fuel <= more,
        settled(callee(function, fuel)),
    ensures
        callee(function, more) == callee(function, fuel),
    decreases fuel, 1nat, function,
{
    if function is Fix {
        lemma_more_fuel_unroll(function, fuel, more);
        if let Ok(unrolled) = unroll(function, fuel) {
            lemma_more_fuel_callee(unrolled, (fuel - 1) as nat, (more - 1) as nat);
        }
    }
}

/// Where the entries of a record were evaluated before the fuel ended, more
/// fuel gives the same.
pub proof fn lemma_more_fuel_records(records: Seq<(Name, Term)>, env: Env, fuel: nat, more: nat)
    requires
        fuel <= more,
        settled(eval_records(records, env, fuel)),
    ensures
        eval_records(records, env, more) == eval_records(records, env, fuel),
    decreases fuel, 2nat, records,
{
    if records.len() > 0 {
        lemma_more_fuel_records(records.drop_last(), env, fuel, more);
        if eval_records(records.drop_last(), env, fuel) is Ok {
            lemma_more_fuel(records.last().1, env, fuel, more);
        }
    }
}

} // verus!
