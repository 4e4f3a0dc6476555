//! Recursion through the fixpoint operator: what a call of a recursive
//! function does, and a standard recursive definition, the evenness test,
//! evaluated for every natural.

use crate::ast::{Name, Operator, Span, Term, Ty, Type, Value};
use crate::check::{type_of, TypeError};
use crate::eval::{callee, eval_term, unroll, Env, EvalError, Val};
use crate::safety::recursion_guarded;
use crate::sym_tab::innermost;
use vstd::prelude::*;

verus! {

/// A call of a recursive function unrolls it: where the left side of an
/// application evaluates to a recursive function, and unrolling that gives a
/// closure, the application enters that closure's body with the argument,
/// in the closure's environment.
pub proof fn lemma_recursive_call_unrolls(
    meta: Span,
    left: Term,
    right: Term,
    env: Env,
    fuel: nat,
)
    requires
        fuel > 0,
        eval_term(left, env, fuel) is Ok,
        eval_term(left, env, fuel)->Ok_0 is Fix,
        unroll(eval_term(left, env, fuel)->Ok_0, fuel) is Ok,
        unroll(eval_term(left, env, fuel)->Ok_0, fuel)->Ok_0 is Func,
        eval_term(right, env, fuel) is Ok,
    ensures
        ({
            let closure = unroll(eval_term(left, env, fuel)->Ok_0, fuel)->Ok_0;
            let arg = eval_term(right, env, fuel)->Ok_0;
            eval_term(
                Term::Application { meta, left: Box::new(left), right: Box::new(right) },
                env,
                fuel,
            ) == eval_term(
                closure->Func_1,
                closure->Func_2.push((closure->Func_0, arg)),
                (fuel - 1) as nat,
            )
        }),
{
    let recursive = eval_term(left, env, fuel)->Ok_0;
    let closure = unroll(recursive, fuel)->Ok_0;
    assert(callee(closure, (fuel - 1) as nat) == Ok::<Val, EvalError>(closure));
    assert(callee(recursive, fuel) == Ok::<Val, EvalError>(closure));
}

/// The numeral of `n`: `Zero` under `n` successors.
pub open spec fn numeral(n: nat, meta: Span) -> Term
    decreases n,
{
    if n == 0 {
        Term::Literal { meta, value: Value::Zero }
    } else {
        Term::Arithmetic {
            meta,
            op: Operator::Succ,
            expr: Box::new(numeral((n - 1) as nat, meta)),
        }
    }
}

/// A numeral that the machine's naturals hold evaluates to its number.
pub proof fn lemma_numeral(n: nat, meta: Span, env: Env, fuel: nat)
    requires
        n <= usize::MAX,
    ensures
        eval_term(numeral(n, meta), env, fuel) == Ok::<Val, EvalError>(Val::Nat(n)),
    decreases n,
{
    if n > 0 {
        lemma_numeral((n - 1) as nat, meta, env, fuel);
    }
}

/// The name of the evenness test inside its own definition.
pub open spec fn even_name() -> Name {
    seq!['e', 'v', 'e', 'n']
}

/// The name of the number that the evenness test is asked of.
pub open spec fn number_name() -> Name {
    seq!['n']
}

/// `if iszero n then true else if iszero (pred n) then false else
/// even (pred (pred n))`
pub open spec fn even_body(meta: Span) -> Term {
    let n = Term::Identifier { meta, name: number_name() };
    let pred_n = Term::Arithmetic { meta, op: Operator::Pred, expr: Box::new(n) };
    let pred_pred_n = Term::Arithmetic { meta, op: Operator::Pred, expr: Box::new(pred_n) };
    Term::Condition {
        meta,
        clause: Box::new(Term::IsZero { meta, expr: Box::new(n) }),
        then_arm: Box::new(Term::Literal { meta, value: Value::True }),
        else_arm: Box::new(
            Term::Condition {
                meta,
                clause: Box::new(Term::IsZero { meta, expr: Box::new(pred_n) }),
                then_arm: Box::new(Term::Literal { meta, value: Value::False }),
                else_arm: Box::new(
                    Term::Application {
                        meta,
                        left: Box::new(Term::Identifier { meta, name: even_name() }),
                        right: Box::new(pred_pred_n),
                    },
                ),
            },
        ),
    }
}

/// The function from a number to the body of the evenness test.
pub open spec fn even_step(meta: Span) -> Term {
    Term::Abstraction {
        meta,
        ident: number_name(),
        data_type: Ty::Single(Type::Nat),
        body: Box::new(even_body(meta)),
    }
}

/// The evenness test: the fixpoint of the functional that takes `even` to
/// `even_step`.
pub open spec fn even_test(meta: Span) -> Term {
    Term::Fix {
        meta,
        point: Box::new(
            Term::Abstraction {
                meta,
                ident: even_name(),
                data_type: Ty::Arrow(
                    Box::new(Ty::Single(Type::Nat)),
                    Box::new(Ty::Single(Type::Bool)),
                ),
                body: Box::new(even_step(meta)),
            },
        ),
    }
}

/// The evenness test as a value that has not been unrolled.
pub open spec fn even_recursive(meta: Span) -> Val {
    Val::Fix(Box::new(Val::Func(even_name(), even_step(meta), Seq::empty())))
}

/// The environment of the evenness test's body when it is asked of `n`.
pub open spec fn even_env(meta: Span, n: nat) -> Env {
    seq![(even_name(), even_recursive(meta)), (number_name(), Val::Nat(n))]
}

/// The body of the evenness test, asked of `n`, tells whether `n` is even,
/// with fuel for one call for every two that `n` counts.
pub proof fn lemma_even_body(meta: Span, n: nat, fuel: nat)
    requires
        fuel >= n / 2,
    ensures
        eval_term(even_body(meta), even_env(meta, n), fuel) == Ok::<Val, EvalError>(
            Val::Bool(n % 2 == 0),
        ),
    decreases n,
{
    let env = even_env(meta, n);
    let recursive = even_recursive(meta);
    assert(even_name() != number_name()) by {
        assert(even_name().len() != number_name().len());
    }
    assert(env.last() == (number_name(), Val::Nat(n)));
    assert(env.drop_last().last() == (even_name(), recursive));
    let n_term = Term::Identifier { meta, name: number_name() };
    let pred_n = Term::Arithmetic { meta, op: Operator::Pred, expr: Box::new(n_term) };
    let pred_pred_n = Term::Arithmetic { meta, op: Operator::Pred, expr: Box::new(pred_n) };
    assert(eval_term(n_term, env, fuel) == Ok::<Val, EvalError>(Val::Nat(n)));
    let is_zero = Term::IsZero { meta, expr: Box::new(n_term) };
    let is_one = Term::IsZero { meta, expr: Box::new(pred_n) };
    let even = Term::Identifier { meta, name: even_name() };
    let call = Term::Application { meta, left: Box::new(even), right: Box::new(pred_pred_n) };
    let inner = Term::Condition {
        meta,
        clause: Box::new(is_one),
        then_arm: Box::new(Term::Literal { meta, value: Value::False }),
        else_arm: Box::new(call),
    };
    assert(eval_term(is_zero, env, fuel) == Ok::<Val, EvalError>(Val::Bool(n == 0)));
    assert(eval_term(pred_n, env, fuel) == Ok::<Val, EvalError>(
        Val::Nat(
            if n == 0 {
                0
            } else {
                (n - 1) as nat
            },
        ),
    ));
    assert(eval_term(is_one, env, fuel) == Ok::<Val, EvalError>(Val::Bool(n <= 1)));
    let yes = Term::Literal { meta, value: Value::True };
    let no = Term::Literal { meta, value: Value::False };
    assert(eval_term(yes, env, fuel) == Ok::<Val, EvalError>(Val::Bool(true)));
    assert(eval_term(no, env, fuel) == Ok::<Val, EvalError>(Val::Bool(false)));
    assert(even_body(meta) == Term::Condition {
        meta,
        clause: Box::new(is_zero),
        then_arm: Box::new(yes),
        else_arm: Box::new(inner),
    });
    if n >= 2 {
        assert(eval_term(pred_pred_n, env, fuel) == Ok::<Val, EvalError>(
            Val::Nat((n - 2) as nat),
        ));
        assert(innermost(env.drop_last(), even_name()) == Some(recursive));
        assert(eval_term(even, env, fuel) == Ok::<Val, EvalError>(recursive));
        let captured = seq![(even_name(), recursive)];
        assert(Seq::<(Name, Val)>::empty().push((even_name(), recursive)) =~= captured);
        let closure = Val::Func(number_name(), even_body(meta), captured);
        assert(eval_term(even_step(meta), captured, (fuel - 1) as nat) == Ok::<Val, EvalError>(
            closure,
        ));
        assert(unroll(recursive, fuel) == Ok::<Val, EvalError>(closure));
        assert(callee(closure, (fuel - 1) as nat) == Ok::<Val, EvalError>(closure));
        assert(callee(recursive, fuel) == Ok::<Val, EvalError>(closure));
        assert(captured.push((number_name(), Val::Nat((n - 2) as nat))) =~= even_env(
            meta,
            (n - 2) as nat,
        ));
        lemma_even_body(meta, (n - 2) as nat, (fuel - 1) as nat);
        assert(eval_term(call, env, fuel) == Ok::<Val, EvalError>(Val::Bool(n % 2 == 0)));
        assert(eval_term(inner, env, fuel) == Ok::<Val, EvalError>(Val::Bool(n % 2 == 0)));
    } else if n == 1 {
        assert(eval_term(inner, env, fuel) == Ok::<Val, EvalError>(Val::Bool(false)));
    }
}

/// Recursion reaches its base case: the evenness test, applied to the numeral
/// of any natural that the machine holds, tells whether the natural is even,
/// with fuel for one call and one more for every two that the natural counts.
pub proof fn lemma_even_test(meta: Span, n: nat, fuel: nat)
    requires
        n <= usize::MAX,
        fuel >= n / 2 + 1,
    ensures
        eval_term(
            Term::Application {
                meta,
                left: Box::new(even_test(meta)),
                right: Box::new(numeral(n, meta)),
            },
            Seq::empty(),
            fuel,
        ) == Ok::<Val, EvalError>(Val::Bool(n % 2 == 0)),
{
    let recursive = even_recursive(meta);
    let captured = seq![(even_name(), recursive)];
    let closure = Val::Func(number_name(), even_body(meta), captured);
    let functional = Term::Abstraction {
        meta,
        ident: even_name(),
        data_type: Ty::Arrow(Box::new(Ty::Single(Type::Nat)), Box::new(Ty::Single(Type::Bool))),
        body: Box::new(even_step(meta)),
    };
    assert(eval_term(functional, Seq::empty(), fuel) == Ok::<Val, EvalError>(
        Val::Func(even_name(), even_step(meta), Seq::empty()),
    ));
    assert(Seq::<(Name, Val)>::empty().push((even_name(), recursive)) =~= captured);
    assert(eval_term(even_step(meta), captured, (fuel - 1) as nat) == Ok::<Val, EvalError>(
        closure,
    ));
    assert(unroll(recursive, fuel) == Ok::<Val, EvalError>(closure));
    assert(eval_term(even_test(meta), Seq::empty(), fuel) == Ok::<Val, EvalError>(closure));
    assert(callee(closure, fuel) == Ok::<Val, EvalError>(closure));
    lemma_numeral(n, meta, Seq::empty(), fuel);
    assert(captured.push((number_name(), Val::Nat(n))) =~= even_env(meta, n));
    lemma_even_body(meta, n, (fuel - 1) as nat);
}

/// The evenness test is a function from naturals to booleans, and its
/// recursion is guarded.
pub proof fn lemma_even_test_is_typed(meta: Span)
    ensures
        type_of(even_test(meta), Seq::empty()) == Ok::<Ty, TypeError>(
            Ty::Arrow(Box::new(Ty::Single(Type::Nat)), Box::new(Ty::Single(Type::Bool))),
        ),
        recursion_guarded(even_test(meta)),
{
    let naturals = Ty::Single(Type::Nat);
    let boolean = Ty::Single(Type::Bool);
    let arrow = Ty::Arrow(Box::new(naturals), Box::new(boolean));
    assert(even_name() != number_name()) by {
        assert(even_name().len() != number_name().len());
    }
    let ctx = Seq::<(Name, Ty)>::empty().push((even_name(), arrow)).push((number_name(), naturals));
    assert(ctx.last() == (number_name(), naturals));
    assert(ctx.drop_last().last() == (even_name(), arrow));
    let n_term = Term::Identifier { meta, name: number_name() };
    let pred_n = Term::Arithmetic { meta, op: Operator::Pred, expr: Box::new(n_term) };
    let pred_pred_n = Term::Arithmetic { meta, op: Operator::Pred, expr: Box::new(pred_n) };
    let even = Term::Identifier { meta, name: even_name() };
    let call = Term::Application { meta, left: Box::new(even), right: Box::new(pred_pred_n) };
    assert(type_of(n_term, ctx) == Ok::<Ty, TypeError>(naturals));
    assert(type_of(pred_n, ctx) == Ok::<Ty, TypeError>(naturals));
    assert(type_of(pred_pred_n, ctx) == Ok::<Ty, TypeError>(naturals));
    assert(innermost(ctx.drop_last(), even_name()) == Some(arrow));
    assert(type_of(even, ctx) == Ok::<Ty, TypeError>(arrow));
    assert(type_of(call, ctx) == Ok::<Ty, TypeError>(boolean));
    let is_zero = Term::IsZero { meta, expr: Box::new(n_term) };
    let is_one = Term::IsZero { meta, expr: Box::new(pred_n) };
    let inner = Term::Condition {
        meta,
        clause: Box::new(is_one),
        then_arm: Box::new(Term::Literal { meta, value: Value::False }),
        else_arm: Box::new(call),
    };
    assert(type_of(is_zero, ctx) == Ok::<Ty, TypeError>(boolean));
    assert(type_of(is_one, ctx) == Ok::<Ty, TypeError>(boolean));
    let yes = Term::Literal { meta, value: Value::True };
    let no = Term::Literal { meta, value: Value::False };
    assert(type_of(yes, ctx) == Ok::<Ty, TypeError>(boolean));
    assert(type_of(no, ctx) == Ok::<Ty, TypeError>(boolean));
    assert(even_body(meta) == Term::Condition {
        meta,
        clause: Box::new(is_zero),
        then_arm: Box::new(yes),
        else_arm: Box::new(inner),
    });
    assert(type_of(inner, ctx) == Ok::<Ty, TypeError>(boolean));
    assert(type_of(even_body(meta), ctx) == Ok::<Ty, TypeError>(boolean));
    assert(type_of(even_step(meta), ctx.drop_last()) == Ok::<Ty, TypeError>(arrow)) by {
        assert(ctx.drop_last().push((number_name(), naturals)) =~= ctx);
    }
    assert(recursion_guarded(even_body(meta))) by {
        reveal_with_fuel(recursion_guarded, 8);
    }
    assert(recursion_guarded(even_step(meta)));
    assert(type_of(*even_test(meta)->Fix_point, Seq::empty()) == Ok::<Ty, TypeError>(
        Ty::Arrow(Box::new(arrow), Box::new(arrow)),
    )) by {
        assert(Seq::<(Name, Ty)>::empty().push((even_name(), arrow)) =~= ctx.drop_last());
    }
}

} // verus!
