//! Laws of evaluation and checking that relate several terms or several
//! environments.

use crate::assoc::{
    as_map, distinct_names, lemma_as_map, lemma_as_map_has_entry, lemma_position, names_of,
    position,
};
use crate::ast::{Name, Operator, Span, Term, Ty, Value};
use crate::check::{covers, type_of, Context, TypeError, TypeErrorKind};
use crate::eval::{callee, eval_records, eval_term, Env, EvalError, Val};
use vstd::prelude::*;

verus! {

/// The term is `Zero` under any number of predecessors.
pub open spec fn pred_tower(term: Term) -> bool
    decreases term,
{
    match term {
        Term::Literal { meta, value } => value == Value::Zero,
        Term::Arithmetic { meta, op, expr } => op == Operator::Pred && pred_tower(*expr),
        _ => false,
    }
}

/// Predecessor floor: `Zero` under any number of predecessors evaluates to
/// the natural 0, in every environment and with any fuel.
pub proof fn lemma_pred_floor(term: Term, env: Env, fuel: nat)
    requires
        pred_tower(term),
    ensures
        eval_term(term, env, fuel) == Ok::<Val, EvalError>(Val::Nat(0)),
    decreases term,
{
    match term {
        Term::Arithmetic { meta, op, expr } => {
            lemma_pred_floor(*expr, env, fuel);
        },
        _ => {},
    }
}

/// The predecessor of a natural is the natural below it, and 0 for 0.
pub proof fn lemma_pred_of_value(meta: Span, expr: Term, env: Env, fuel: nat, n: nat)
    requires
        eval_term(expr, env, fuel) == Ok::<Val, EvalError>(Val::Nat(n)),
    ensures
        eval_term(Term::Arithmetic { meta, op: Operator::Pred, expr: Box::new(expr) }, env, fuel)
            == Ok::<Val, EvalError>(
            Val::Nat(
                if n == 0 {
                    0
                } else {
                    (n - 1) as nat
                },
            ),
        ),
{
}

/// What the evaluation of the entries of a record gives: a value for each
/// entry, under the entry's name, where every entry has a value.
pub proof fn lemma_eval_records(records: Seq<(Name, Term)>, env: Env, fuel: nat)
    ensures
        eval_records(records, env, fuel) is Ok <==> forall|i: int|
            0 <= i < records.len() ==> eval_term((#[trigger] records[i]).1, env, fuel) is Ok,
        eval_records(records, env, fuel) is Ok ==> {
            let values = eval_records(records, env, fuel)->Ok_0;
            values.len() == records.len() && forall|i: int|
                0 <= i < records.len() ==> #[trigger] values[i] == (
                    records[i].0,
                    eval_term(records[i].1, env, fuel)->Ok_0,
                )
        },
    decreases records.len(),
{
    if records.len() > 0 {
        let front = records.drop_last();
        lemma_eval_records(front, env, fuel);
        assert(forall|i: int| 0 <= i < front.len() ==> front[i] == records[i]);
        assert(records.last() == records[records.len() - 1]);
        if eval_records(records, env, fuel) is Ok {
            let values = eval_records(records, env, fuel)->Ok_0;
            let front_values = eval_records(front, env, fuel)->Ok_0;
            assert forall|i: int| 0 <= i < records.len() implies eval_term(
                (#[trigger] records[i]).1,
                env,
                fuel,
            ) is Ok by {
                if i < front.len() {
                    assert(front[i] == records[i]);
                }
            }
            assert forall|i: int| 0 <= i < records.len() implies #[trigger] values[i] == (
                records[i].0,
                eval_term(records[i].1, env, fuel)->Ok_0,
            ) by {
                if i < front.len() {
                    assert(values[i] == front_values[i]);
                }
            }
        } else {
            if eval_records(front, env, fuel) is Ok {
                assert(eval_term(records[records.len() - 1].1, env, fuel) is Err);
            } else {
                let i = choose|i: int|
                    0 <= i < front.len() && !(eval_term((#[trigger] front[i]).1, env, fuel) is Ok);
                assert(front[i] == records[i]);
            }
        }
    }
}

/// A reordering of entries with distinct names has distinct names.
pub proof fn lemma_reordering_keeps_names_distinct<V>(
    entries: Seq<(Name, V)>,
    reordered: Seq<(Name, V)>,
)
    requires
        distinct_names(entries),
        entries.to_multiset() == reordered.to_multiset(),
    ensures
        distinct_names(reordered),
{
    assert forall|i: int, j: int| 0 <= i < j < reordered.len() implies (
    #[trigger] reordered[i]).0 != (#[trigger] reordered[j]).0 by {
        if reordered[i].0 == reordered[j].0 {
            let x = reordered[i];
            let y = reordered[j];
            vstd::seq_lib::to_multiset_contains(entries, x);
            vstd::seq_lib::to_multiset_contains(reordered, x);
            vstd::seq_lib::to_multiset_contains(entries, y);
            vstd::seq_lib::to_multiset_contains(reordered, y);
            assert(reordered.contains(x));
            assert(reordered.contains(y));
            let p = choose|p: int| 0 <= p < entries.len() && entries[p] == x;
            let q = choose|q: int| 0 <= q < entries.len() && entries[q] == y;
            if p < q {
                assert(entries[p].0 != entries[q].0);
            } else if q < p {
                assert(entries[q].0 != entries[p].0);
            }
            assert(x == y);
            // `x` stands twice in `reordered`, and once in `entries`.
            reordered.to_multiset_ensures();
            entries.to_multiset_ensures();
            let rest = reordered.remove(i);
            assert(rest[j - 1] == reordered[j]);
            assert(rest.contains(x));
            vstd::seq_lib::to_multiset_contains(rest, x);
            assert(rest.to_multiset() =~= reordered.to_multiset().remove(x));
            assert(reordered.to_multiset().count(x) >= 2);
            let others = entries.remove(p);
            assert(!others.contains(x)) by {
                if others.contains(x) {
                    let k = choose|k: int| 0 <= k < others.len() && others[k] == x;
                    if k < p {
                        assert(others[k] == entries[k]);
                        assert(entries[k].0 != entries[p].0);
                    } else {
                        assert(others[k] == entries[k + 1]);
                        assert(entries[p].0 != entries[k + 1].0);
                    }
                }
            }
            vstd::seq_lib::to_multiset_contains(others, x);
            assert(others.to_multiset() =~= entries.to_multiset().remove(x));
            assert(entries.to_multiset().count(x) == 1);
        }
    }
}

/// Record field independence: a record whose fields have distinct names, and
/// any reordering of its field declarations, evaluate to the same value.
pub proof fn lemma_record_order(
    meta: Span,
    records: Seq<(Name, Term)>,
    other_meta: Span,
    reordered: Seq<(Name, Term)>,
    env: Env,
    fuel: nat,
)
    requires
        distinct_names(records),
        records.to_multiset() == reordered.to_multiset(),
        eval_term(Term::Record { meta, records }, env, fuel) is Ok,
    ensures
        eval_term(Term::Record { meta: other_meta, records: reordered }, env, fuel) == eval_term(
            Term::Record { meta, records },
            env,
            fuel,
        ),
{
    lemma_reordering_keeps_names_distinct(records, reordered);
    assert forall|e: (Name, Term)| records.contains(e) <==> reordered.contains(e) by {
        vstd::seq_lib::to_multiset_contains(records, e);
        vstd::seq_lib::to_multiset_contains(reordered, e);
    }
    lemma_eval_records(records, env, fuel);
    lemma_eval_records(reordered, env, fuel);
    assert forall|j: int| 0 <= j < reordered.len() implies eval_term(
        (#[trigger] reordered[j]).1,
        env,
        fuel,
    ) is Ok by {
        assert(reordered.contains(reordered[j]));
        assert(records.contains(reordered[j]));
        let i = choose|i: int| 0 <= i < records.len() && records[i] == reordered[j];
        assert(eval_term(records[i].1, env, fuel) is Ok);
    }
    let values = eval_records(records, env, fuel)->Ok_0;
    let others = eval_records(reordered, env, fuel)->Ok_0;
    assert(distinct_names(values)) by {
        assert forall|i: int, j: int| 0 <= i < j < values.len() implies (#[trigger] values[i]).0 != (
        #[trigger] values[j]).0 by {
            assert(records[i].0 != records[j].0);
        }
    }
    assert(distinct_names(others)) by {
        assert forall|i: int, j: int| 0 <= i < j < others.len() implies (#[trigger] others[i]).0 != (
        #[trigger] others[j]).0 by {
            assert(reordered[i].0 != reordered[j].0);
        }
    }
    assert forall|name: Name| #[trigger] as_map(values).dom().contains(name) implies as_map(
        others,
    ).dom().contains(name) && as_map(others)[name] == as_map(values)[name] by {
        lemma_as_map(values, name);
        lemma_position(names_of(values), name);
        let i = position(names_of(values), name)->Some_0;
        assert(values[i].0 == name);
        assert(records.contains(records[i]));
        assert(reordered.contains(records[i]));
        let j = choose|j: int| 0 <= j < reordered.len() && reordered[j] == records[i];
        assert(others[j] == values[i]);
        lemma_as_map_has_entry(others, j);
        lemma_as_map_has_entry(values, i);
    }
    assert forall|name: Name| #[trigger] as_map(others).dom().contains(name) implies as_map(
        values,
    ).dom().contains(name) by {
        lemma_as_map(others, name);
        lemma_position(names_of(others), name);
        let j = position(names_of(others), name)->Some_0;
        assert(others[j].0 == name);
        assert(reordered.contains(reordered[j]));
        assert(records.contains(reordered[j]));
        let i = choose|i: int| 0 <= i < records.len() && records[i] == reordered[j];
        assert(values[i] == others[j]);
        lemma_as_map_has_entry(values, i);
    }
    assert(as_map(values) =~= as_map(others));
}

/// Match exhaustiveness: a match that has no case for an alternative of its
/// scrutinee's variant type is rejected as not exhaustive, whatever its arms
/// are.
pub proof fn lemma_missing_case_is_rejected(
    meta: Span,
    to_match: Term,
    cases: Seq<(Name, (Name, Term))>,
    ctx: Context,
    tag: Name,
)
    requires
        type_of(to_match, ctx) is Ok,
        type_of(to_match, ctx)->Ok_0 is Variant,
        type_of(to_match, ctx)->Ok_0->Variant_0.dom().contains(tag),
        forall|i: int| 0 <= i < cases.len() ==> (#[trigger] cases[i]).0 != tag,
    ensures
        type_of(Term::Matching { meta, to_match: Box::new(to_match), cases }, ctx) == Err::<
            Ty,
            TypeError,
        >(TypeError { kind: TypeErrorKind::NonExhaustiveMatch, span: meta }),
{
    lemma_as_map(cases, tag);
    lemma_position(names_of(cases), tag);
    if position(names_of(cases), tag) is Some {
        let i = position(names_of(cases), tag)->Some_0;
        assert(names_of(cases)[i] == cases[i].0);
    }
    assert(!as_map(cases).dom().contains(tag));
    assert(!covers(cases, type_of(to_match, ctx)->Ok_0->Variant_0));
}

/// Lexical scoping: an application of a closure evaluates the closure's body
/// in the environment that the closure captured, extended by the parameter;
/// the environment of the application serves for the operands only.
pub proof fn lemma_call_enters_captured_environment(
    meta: Span,
    left: Term,
    right: Term,
    env: Env,
    fuel: nat,
)
    requires
        eval_term(left, env, fuel) is Ok,
        eval_term(left, env, fuel)->Ok_0 is Func,
        eval_term(right, env, fuel) is Ok,
        fuel > 0,
    ensures
        ({
            let closure = eval_term(left, env, fuel)->Ok_0;
            let arg = eval_term(right, env, fuel)->Ok_0;
            eval_term(
                Term::Application { meta, left: Box::new(left), right: Box::new(right) },
                env,
                fuel,
            ) == eval_term(
                closure->Func_1,
                closure->Func_2.push((closure->Func_0, arg)),
                (fuel - 1) as nat,
            )
        }),
{
    let closure = eval_term(left, env, fuel)->Ok_0;
    assert(callee(closure, fuel) == Ok::<Val, EvalError>(closure));
}

/// Lexical scoping: where the operands of an application evaluate alike in
/// two environments, the application does too, however else the two
/// environments differ. Bindings made after a closure was built, and those
/// that stand where it is called, do not reach its body.
pub proof fn lemma_call_site_is_irrelevant(
    meta: Span,
    left: Term,
    right: Term,
    env: Env,
    other: Env,
    fuel: nat,
)
    requires
        eval_term(left, env, fuel) == eval_term(left, other, fuel),
        eval_term(right, env, fuel) == eval_term(right, other, fuel),
    ensures
        eval_term(Term::Application { meta, left: Box::new(left), right: Box::new(right) }, env, fuel)
            == eval_term(
            Term::Application { meta, left: Box::new(left), right: Box::new(right) },
            other,
            fuel,
        ),
{
}

} // verus!
