//! What expressions mean: their value under a valuation of the variables.
//! An expression that is ill-typed, or refers to a variable without a
//! value, has no value.

use vstd::prelude::*;
use crate::expression::Term;
use crate::name::NameView;

verus! {

/// The value of an expression: an integer or a truth value.
pub enum Value {
    Int(int),
    Bool(bool),
}

/// The sum of the values of `xs`, where all of them are integers.
pub open spec fn total(xs: Seq<Term>, env: Map<NameView, Value>) -> Option<int>
    decreases xs,
{
    if xs.len() == 0 {
        Some(0)
    } else {
        match (total(xs.drop_last(), env), xs.last().value(env)) {
            (Some(s), Some(Value::Int(x))) => Some(s + x),
            _ => None,
        }
    }
}

/// Whether one of the values of `xs` is true, where all of them are truth
/// values.
pub open spec fn any_true(xs: Seq<Term>, env: Map<NameView, Value>) -> Option<bool>
    decreases xs,
{
    if xs.len() == 0 {
        Some(false)
    } else {
        match (any_true(xs.drop_last(), env), xs.last().value(env)) {
            (Some(a), Some(Value::Bool(b))) => Some(a || b),
            _ => None,
        }
    }
}

/// Whether all of the values of `xs` are true, where all of them are truth
/// values.
pub open spec fn all_true(xs: Seq<Term>, env: Map<NameView, Value>) -> Option<bool>
    decreases xs,
{
    if xs.len() == 0 {
        Some(true)
    } else {
        match (all_true(xs.drop_last(), env), xs.last().value(env)) {
            (Some(a), Some(Value::Bool(b))) => Some(a && b),
            _ => None,
        }
    }
}

/// Both values, where both are integers.
pub open spec fn two_ints(a: Option<Value>, b: Option<Value>) -> Option<(int, int)> {
    match (a, b) {
        (Some(Value::Int(x)), Some(Value::Int(y))) => Some((x, y)),
        _ => None,
    }
}

/// The sum and the value, where the sum is defined and the value is an
/// integer.
pub open spec fn sum_and_int(sum: Option<int>, b: Option<Value>) -> Option<(int, int)> {
    match (sum, b) {
        (Some(x), Some(Value::Int(y))) => Some((x, y)),
        _ => None,
    }
}

/// Two values of one type are equal.
pub open spec fn same_value(a: Option<Value>, b: Option<Value>) -> Option<bool> {
    match (a, b) {
        (Some(Value::Int(x)), Some(Value::Int(y))) => Some(x == y),
        (Some(Value::Bool(x)), Some(Value::Bool(y))) => Some(x == y),
        _ => None,
    }
}

/// A truth value as a value.
pub open spec fn truth(b: Option<bool>) -> Option<Value> {
    match b {
        Some(b) => Some(Value::Bool(b)),
        None => None,
    }
}

impl Term {
    /// The value of the expression under the valuation `env`.
    pub open spec fn value(self, env: Map<NameView, Value>) -> Option<Value>
        decreases self,
    {
        match self {
            Term::ConstantInt(i) => Some(Value::Int(i as int)),
            Term::ConstantBool(b) => Some(Value::Bool(b)),
            Term::Reference(n) => if env.contains_key(n) {
                Some(env[n])
            } else {
                None
            },
            Term::Sum(xs) => match total(xs, env) {
                Some(s) => Some(Value::Int(s)),
                None => None,
            },
            Term::Not(a) => match a.value(env) {
                Some(Value::Bool(b)) => Some(Value::Bool(!b)),
                _ => None,
            },
            Term::Or(xs) => truth(any_true(xs, env)),
            Term::And(xs) => truth(all_true(xs, env)),
            Term::Eq(a, b) => truth(same_value(a.value(env), b.value(env))),
            Term::Neq(a, b) => match same_value(a.value(env), b.value(env)) {
                Some(e) => Some(Value::Bool(!e)),
                None => None,
            },
            Term::Geq(a, b) => match two_ints(a.value(env), b.value(env)) {
                Some((x, y)) => Some(Value::Bool(x >= y)),
                None => None,
            },
            Term::Leq(a, b) => match two_ints(a.value(env), b.value(env)) {
                Some((x, y)) => Some(Value::Bool(x <= y)),
                None => None,
            },
            Term::Gt(a, b) => match two_ints(a.value(env), b.value(env)) {
                Some((x, y)) => Some(Value::Bool(x > y)),
                None => None,
            },
            Term::Lt(a, b) => match two_ints(a.value(env), b.value(env)) {
                Some((x, y)) => Some(Value::Bool(x < y)),
                None => None,
            },
            Term::SumGeq(xs, b) => match sum_and_int(total(xs, env), b.value(env)) {
                Some((x, y)) => Some(Value::Bool(x >= y)),
                None => None,
            },
            Term::SumLeq(xs, b) => match sum_and_int(total(xs, env), b.value(env)) {
                Some((x, y)) => Some(Value::Bool(x <= y)),
                None => None,
            },
            Term::Ineq(a, b, c) => match (a.value(env), b.value(env), c.value(env)) {
                (Some(Value::Int(x)), Some(Value::Int(y)), Some(Value::Int(k))) => Some(
                    Value::Bool(x - y <= k),
                ),
                _ => None,
            },
        }
    }
}

/// The values of `xs` one by one.
pub open spec fn values(xs: Seq<Term>, env: Map<NameView, Value>) -> Seq<Option<Value>> {
    Seq::new(xs.len(), |i: int| xs[i].value(env))
}

/// The sum of operands depends on their values only, and is defined
/// exactly when all of them are integers.
pub proof fn lemma_total(xs: Seq<Term>, env: Map<NameView, Value>)
    ensures
        total(xs, env) is Some <==> forall|i: int|
            0 <= i < xs.len() ==> (#[trigger] xs[i]).value(env) matches Some(Value::Int(_)),
        forall|ys: Seq<Term>| #[trigger]
            values(ys, env) == values(xs, env) ==> total(ys, env) == total(xs, env),
    decreases xs.len(),
{
    if xs.len() > 0 {
        lemma_total(xs.drop_last(), env);
        if total(xs, env) is Some {
            assert forall|i: int| 0 <= i < xs.len() implies (#[trigger] xs[i]).value(
                env,
            ) matches Some(Value::Int(_)) by {
                if i < xs.len() - 1 {
                    assert(xs.drop_last()[i] == xs[i]);
                }
            }
        }
        if forall|i: int|
            0 <= i < xs.len() ==> (#[trigger] xs[i]).value(env) matches Some(Value::Int(_)) {
            assert forall|i: int| 0 <= i < xs.drop_last().len() implies (
            #[trigger] xs.drop_last()[i]).value(env) matches Some(Value::Int(_)) by {
                assert(xs.drop_last()[i] == xs[i]);
            }
            assert(xs[xs.len() - 1].value(env) matches Some(Value::Int(_)));
        }
    }
    assert forall|ys: Seq<Term>| #[trigger]
        values(ys, env) == values(xs, env) implies total(ys, env) == total(xs, env) by {
        assert(ys.len() == values(ys, env).len());
        assert(xs.len() == values(xs, env).len());
        if xs.len() > 0 {
            assert(values(ys.drop_last(), env) =~= values(xs.drop_last(), env)) by {
                assert forall|i: int| 0 <= i < xs.len() - 1 implies ys.drop_last()[i].value(env)
                    == xs.drop_last()[i].value(env) by {
                    assert(values(ys, env)[i] == values(xs, env)[i]);
                }
            }
            assert(values(ys, env)[xs.len() - 1] == values(xs, env)[xs.len() - 1]);
            lemma_total(xs.drop_last(), env);
        }
    }
}

/// Whether one of the operands is true depends on their values only, and
/// is defined exactly when all of them are truth values.
pub proof fn lemma_any_true(xs: Seq<Term>, env: Map<NameView, Value>)
    ensures
        any_true(xs, env) is Some <==> forall|i: int|
            0 <= i < xs.len() ==> (#[trigger] xs[i]).value(env) matches Some(Value::Bool(_)),
        any_true(xs, env) == Some(true) ==> exists|i: int|
            0 <= i < xs.len() && (#[trigger] xs[i]).value(env) == Some(Value::Bool(true)),
        any_true(xs, env) is Some && (exists|i: int|
            0 <= i < xs.len() && (#[trigger] xs[i]).value(env) == Some(Value::Bool(true)))
            ==> any_true(xs, env) == Some(true),
        forall|ys: Seq<Term>| #[trigger]
            values(ys, env) == values(xs, env) ==> any_true(ys, env) == any_true(xs, env),
    decreases xs.len(),
{
    if xs.len() > 0 {
        let front = xs.drop_last();
        lemma_any_true(front, env);
        if any_true(xs, env) is Some {
            assert forall|i: int| 0 <= i < xs.len() implies (#[trigger] xs[i]).value(
                env,
            ) matches Some(Value::Bool(_)) by {
                if i < xs.len() - 1 {
                    assert(front[i] == xs[i]);
                }
            }
        }
        if forall|i: int|
            0 <= i < xs.len() ==> (#[trigger] xs[i]).value(env) matches Some(Value::Bool(_)) {
            assert forall|i: int| 0 <= i < front.len() implies (#[trigger] front[i]).value(
                env,
            ) matches Some(Value::Bool(_)) by {
                assert(front[i] == xs[i]);
            }
            assert(xs[xs.len() - 1].value(env) matches Some(Value::Bool(_)));
        }
        if any_true(xs, env) == Some(true) {
            if xs.last().value(env) == Some(Value::Bool(true)) {
                assert(xs[xs.len() - 1].value(env) == Some(Value::Bool(true)));
            } else {
                let i = choose|i: int|
                    0 <= i < front.len() && (#[trigger] front[i]).value(env) == Some(
                        Value::Bool(true),
                    );
                assert(xs[i] == front[i]);
            }
        }
        if any_true(xs, env) is Some && (exists|i: int|
            0 <= i < xs.len() && (#[trigger] xs[i]).value(env) == Some(Value::Bool(true))) {
            let i = choose|i: int|
                0 <= i < xs.len() && (#[trigger] xs[i]).value(env) == Some(Value::Bool(true));
            if i < xs.len() - 1 {
                assert(front[i] == xs[i]);
            }
        }
    }
    assert forall|ys: Seq<Term>| #[trigger]
        values(ys, env) == values(xs, env) implies any_true(ys, env) == any_true(xs, env) by {
        assert(ys.len() == values(ys, env).len());
        assert(xs.len() == values(xs, env).len());
        if xs.len() > 0 {
            assert(values(ys.drop_last(), env) =~= values(xs.drop_last(), env)) by {
                assert forall|i: int| 0 <= i < xs.len() - 1 implies ys.drop_last()[i].value(env)
                    == xs.drop_last()[i].value(env) by {
                    assert(values(ys, env)[i] == values(xs, env)[i]);
                }
            }
            assert(values(ys, env)[xs.len() - 1] == values(xs, env)[xs.len() - 1]);
            lemma_any_true(xs.drop_last(), env);
        }
    }
}

/// Whether all of the operands are true depends on their values only, and
/// is defined exactly when all of them are truth values.
pub proof fn lemma_all_true(xs: Seq<Term>, env: Map<NameView, Value>)
    ensures
        all_true(xs, env) is Some <==> forall|i: int|
            0 <= i < xs.len() ==> (#[trigger] xs[i]).value(env) matches Some(Value::Bool(_)),
        all_true(xs, env) == Some(false) ==> exists|i: int|
            0 <= i < xs.len() && (#[trigger] xs[i]).value(env) == Some(Value::Bool(false)),
        all_true(xs, env) is Some && (exists|i: int|
            0 <= i < xs.len() && (#[trigger] xs[i]).value(env) == Some(Value::Bool(false)))
            ==> all_true(xs, env) == Some(false),
        forall|ys: Seq<Term>| #[trigger]
            values(ys, env) == values(xs, env) ==> all_true(ys, env) == all_true(xs, env),
    decreases xs.len(),
{
    if xs.len() > 0 {
        let front = xs.drop_last();
        lemma_all_true(front, env);
        if all_true(xs, env) is Some {
            assert forall|i: int| 0 <= i < xs.len() implies (#[trigger] xs[i]).value(
                env,
            ) matches Some(Value::Bool(_)) by {
                if i < xs.len() - 1 {
                    assert(front[i] == xs[i]);
                }
            }
        }
        if forall|i: int|
            0 <= i < xs.len() ==> (#[trigger] xs[i]).value(env) matches Some(Value::Bool(_)) {
            assert forall|i: int| 0 <= i < front.len() implies (#[trigger] front[i]).value(
                env,
            ) matches Some(Value::Bool(_)) by {
                assert(front[i] == xs[i]);
            }
            assert(xs[xs.len() - 1].value(env) matches Some(Value::Bool(_)));
        }
        if all_true(xs, env) == Some(false) {
            if xs.last().value(env) == Some(Value::Bool(false)) {
                assert(xs[xs.len() - 1].value(env) == Some(Value::Bool(false)));
            } else {
                let i = choose|i: int|
                    0 <= i < front.len() && (#[trigger] front[i]).value(env) == Some(
                        Value::Bool(false),
                    );
                assert(xs[i] == front[i]);
            }
        }
        if all_true(xs, env) is Some && (exists|i: int|
            0 <= i < xs.len() && (#[trigger] xs[i]).value(env) == Some(Value::Bool(false))) {
            let i = choose|i: int|
                0 <= i < xs.len() && (#[trigger] xs[i]).value(env) == Some(Value::Bool(false));
            if i < xs.len() - 1 {
                assert(front[i] == xs[i]);
            }
        }
    }
    assert forall|ys: Seq<Term>| #[trigger]
        values(ys, env) == values(xs, env) implies all_true(ys, env) == all_true(xs, env) by {
        assert(ys.len() == values(ys, env).len());
        assert(xs.len() == values(xs, env).len());
        if xs.len() > 0 {
            assert(values(ys.drop_last(), env) =~= values(xs.drop_last(), env)) by {
                assert forall|i: int| 0 <= i < xs.len() - 1 implies ys.drop_last()[i].value(env)
                    == xs.drop_last()[i].value(env) by {
                    assert(values(ys, env)[i] == values(xs, env)[i]);
                }
            }
            assert(values(ys, env)[xs.len() - 1] == values(xs, env)[xs.len() - 1]);
            lemma_all_true(xs.drop_last(), env);
        }
    }
}

/// An expression with a value has children with values.
pub proof fn lemma_value_strict(t: Term, env: Map<NameView, Value>, k: int)
    requires
        t.value(env) is Some,
        0 <= k < t.children().len(),
    ensures
        t.children()[k].value(env) is Some,
{
    match t {
        Term::Sum(xs) => {
            lemma_total(xs, env);
        },
        Term::Or(xs) => {
            lemma_any_true(xs, env);
        },
        Term::And(xs) => {
            lemma_all_true(xs, env);
        },
        Term::SumGeq(xs, b) | Term::SumLeq(xs, b) => {
            lemma_total(xs, env);
        },
        _ => {},
    }
}

/// The value of an expression depends on its variant and on the values of
/// its children only.
pub proof fn lemma_value_rebuild(t: Term, s: Seq<Term>, env: Map<NameView, Value>)
    requires
        s.len() == t.children().len(),
        forall|k: int| 0 <= k < s.len() ==> (#[trigger] s[k]).value(env) == t.children()[k].value(env),
    ensures
        t.rebuild(s).value(env) == t.value(env),
{
    let cs = t.children();
    match t {
        Term::Sum(xs) => {
            lemma_total(xs, env);
            assert(values(s, env) =~= values(xs, env));
        },
        Term::Or(xs) => {
            lemma_any_true(xs, env);
            assert(values(s, env) =~= values(xs, env));
        },
        Term::And(xs) => {
            lemma_all_true(xs, env);
            assert(values(s, env) =~= values(xs, env));
        },
        Term::SumGeq(xs, b) | Term::SumLeq(xs, b) => {
            lemma_total(xs, env);
            assert(values(s.drop_last(), env) =~= values(xs, env)) by {
                assert forall|i: int| 0 <= i < xs.len() implies s.drop_last()[i].value(env)
                    == xs[i].value(env) by {
                    assert(s[i].value(env) == cs[i].value(env));
                }
            }
            assert(s[s.len() - 1].value(env) == cs[s.len() - 1].value(env));
        },
        Term::Not(_) => {
            assert(s[0].value(env) == cs[0].value(env));
        },
        Term::Eq(_, _)
        | Term::Neq(_, _)
        | Term::Geq(_, _)
        | Term::Leq(_, _)
        | Term::Gt(_, _)
        | Term::Lt(_, _)
        | Term::Ineq(_, _, _) => {
            assert(s[0].value(env) == cs[0].value(env));
            assert(s[1].value(env) == cs[1].value(env));
        },
        _ => {},
    }
}

/// Replacing a node by an expression of the same value leaves the value
/// of the tree as it is.
pub proof fn lemma_value_replaced(t: Term, path: Seq<int>, new: Term, env: Map<NameView, Value>)
    requires
        t.value(env) is Some,
        t.at(path) is Some,
        t.at(path)->0.value(env) is Some ==> new.value(env) == t.at(path)->0.value(env),
    ensures
        t.replace_at(path, new).value(env) == t.value(env),
        t.at(path)->0.value(env) is Some,
    decreases path.len(),
{
    if path.len() > 0 {
        let cs = t.children();
        let i = path[0];
        lemma_value_strict(t, env, i);
        lemma_value_replaced(cs[i], path.drop_first(), new, env);
        let child = cs[i].replace_at(path.drop_first(), new);
        lemma_value_rebuild(t, cs.update(i, child), env);
    }
}

} // verus!
