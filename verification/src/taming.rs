//! Rewriting that keeps the scopes of variables in order.

use vstd::prelude::*;
use vstd::set_lib::lemma_len_subset;

use crate::algebra::{Expr, FunctionView, Plan};
use crate::builders::{
    all_conjuncts, all_disjuncts, and_all, conjuncts, disjuncts, equal, exists_plan, if_cond,
    known_truth, not, or_all, returns_boolean, same_term, truth,
};
use crate::expr_laws::{lemma_bool_truth, lemma_conjuncts_proper};
use crate::lookups::{any_expr_has_subclass_path, expr_has_subclass_path, has_subclass_path};
use crate::scope::{
    all_have_kind, all_proper_exprs, binds, gives_literal, has_kind, never_nan, proper_expr,
};
use crate::scoping::{
    all_exists_covered, all_expr_paths, all_plain_exprs, all_scoped_exprs, any_contains_exists,
    contains_exists, covers, exists_covered, expr_paths, lemma_covers_more, plain, plain_expr,
    plan_paths, scoped, scoped_expr, steady, Names, Trace,
};
use crate::term::{XSD_BOOLEAN, XSD_DOUBLE, XSD_FLOAT};
use crate::variables::{expr_variables, exprs_variables, lemma_plan_finite, plan_variables};

verus! {

/// An expression that uses no more than another, and is scoped where the other is.
pub open spec fn tamer_expr(new: Expr, old: Expr, threshold: nat) -> bool {
    &&& expr_variables(new).subset_of(expr_variables(old))
    &&& contains_exists(new) ==> contains_exists(old)
    &&& expr_has_subclass_path(new) ==> expr_has_subclass_path(old)
    &&& expr_paths(new).subset_of(expr_paths(old))
    &&& plain_expr(old) ==> plain_expr(new)
    &&& old == truth(true) ==> new == truth(true)
    &&& proper_expr(old) ==> proper_expr(new)
    &&& never_nan(old) ==> never_nan(new)
    &&& has_kind(old) ==> has_kind(new)
    &&& gives_literal(old) ==> gives_literal(new)
    &&& forall|sure: Names, outside: Names|
        scoped_expr(old, sure, outside, threshold) ==> #[trigger] scoped_expr(
            new,
            sure,
            outside,
            threshold,
        )
    &&& forall|late: Names, sure: Names|
        exists_covered(old, late, sure) ==> #[trigger] exists_covered(new, late, sure)
}

/// The same of a condition, of which only the truth matters.
pub open spec fn tamer_condition(new: Expr, old: Expr, threshold: nat) -> bool {
    &&& expr_variables(new).subset_of(expr_variables(old))
    &&& contains_exists(new) ==> contains_exists(old)
    &&& expr_has_subclass_path(new) ==> expr_has_subclass_path(old)
    &&& expr_paths(new).subset_of(expr_paths(old))
    &&& plain_expr(old) ==> plain_expr(new)
    &&& old == truth(true) ==> new == truth(true)
    &&& proper_expr(old) ==> proper_expr(new)
    &&& forall|sure: Names, outside: Names|
        scoped_expr(old, sure, outside, threshold) ==> #[trigger] scoped_expr(
            new,
            sure,
            outside,
            threshold,
        )
    &&& forall|late: Names, sure: Names|
        exists_covered(old, late, sure) ==> #[trigger] exists_covered(new, late, sure)
}

/// The same of some expressions, one by one.
pub open spec fn all_tamer_exprs(new: Seq<Expr>, old: Seq<Expr>, threshold: nat) -> bool {
    &&& new.len() == old.len()
    &&& forall|i: int| 0 <= i < new.len() ==> tamer_expr(#[trigger] new[i], old[i], threshold)
}

/// A plan that uses no more variables than another, binds no fewer, and is
/// scoped where the other is.
pub open spec fn tamer(new: Plan, old: Plan, threshold: nat) -> bool {
    &&& plan_variables(new).subset_of(plan_variables(old))
    &&& binds(old).subset_of(binds(new))
    &&& has_subclass_path(new) ==> has_subclass_path(old)
    &&& plan_paths(new).subset_of(plan_paths(old))
    &&& plain(old) ==> plain(new)
    &&& forall|late: Names, sure: Names|
        steady(old, late, sure) ==> #[trigger] steady(new, late, sure)
    &&& forall|sure: Names, outside: Names, late: Names|
        scoped(old, sure, outside, late, threshold) ==> #[trigger] scoped(
            new,
            sure,
            outside,
            late,
            threshold,
        )
}

pub open spec fn all_tamer(new: Seq<Plan>, old: Seq<Plan>, threshold: nat) -> bool {
    &&& new.len() == old.len()
    &&& forall|i: int| 0 <= i < new.len() ==> tamer(#[trigger] new[i], old[i], threshold)
}

pub proof fn lemma_tamer_trans(a: Plan, b: Plan, c: Plan, threshold: nat)
    requires
        tamer(a, b, threshold),
        tamer(b, c, threshold),
    ensures
        tamer(a, c, threshold),
{
    assert forall|late: Names, sure: Names| steady(c, late, sure) implies
        #[trigger] steady(a, late, sure) by {
        assert(steady(b, late, sure));
    }
    assert forall|sure: Names, outside: Names, late: Names|
        scoped(
            c,
            sure,
            outside,
            late,
            threshold,
        ) implies #[trigger] scoped(a, sure, outside, late, threshold) by {
        assert(scoped(b, sure, outside, late, threshold));
    }
}

pub proof fn lemma_tamer_expr_trans(a: Expr, b: Expr, c: Expr, threshold: nat)
    requires
        tamer_expr(a, b, threshold),
        tamer_expr(b, c, threshold),
    ensures
        tamer_expr(a, c, threshold),
{
    assert forall|sure: Names, outside: Names| scoped_expr(c, sure, outside, threshold) implies
        #[trigger] scoped_expr(a, sure, outside, threshold) by {
        assert(scoped_expr(b, sure, outside, threshold));
    }
    assert forall|late: Names, sure: Names| exists_covered(c, late, sure) implies
        #[trigger] exists_covered(a, late, sure) by {
        assert(exists_covered(b, late, sure));
    }
}

/// A condition without `EXISTS`, or with variables that are covered.
pub proof fn lemma_covered_whole(expression: Expr, late: Names, sure: Names)
    requires
        contains_exists(expression) ==> covers(expr_variables(expression), late, sure),
    ensures
        exists_covered(expression, late, sure),
    decreases expression,
{
    if let Expr::And(inner) = expression {
        assert forall|i: int| 0 <= i < inner.len() implies exists_covered(
            #[trigger] inner[i],
            late,
            sure,
        ) by {
            if contains_exists(inner[i]) {
                assert(any_contains_exists(inner));
                lemma_part_variables(inner, i);
                lemma_covers_more(
                    expr_variables(expression),
                    late,
                    sure,
                    expr_variables(inner[i]),
                    late,
                    sure,
                );
            }
            lemma_covered_whole(inner[i], late, sure);
        }
        assert(all_exists_covered(inner, late, sure));
    }
}

pub proof fn lemma_part_variables(expressions: Seq<Expr>, i: int)
    requires
        0 <= i < expressions.len(),
    ensures
        expr_variables(expressions[i]).subset_of(exprs_variables(expressions)),
{
    assert forall|v: Seq<char>| #[trigger] expr_variables(expressions[i]).contains(v) implies
        exprs_variables(expressions).contains(v) by {
    }
}

/// What is covered stays covered in an expression that uses less.
proof fn lemma_covered_less(new: Expr, old: Expr, late: Names, sure: Names)
    requires
        old !is And,
        expr_variables(new).subset_of(expr_variables(old)),
        contains_exists(new) ==> contains_exists(old),
        exists_covered(old, late, sure),
    ensures
        exists_covered(new, late, sure),
{
    if contains_exists(new) {
        lemma_covers_more(
            expr_variables(old),
            late,
            sure,
            expr_variables(new),
            late,
            sure,
        );
    }
    lemma_covered_whole(new, late, sure);
}

/// The simple facts are enough where the old expression is no conjunction.
pub proof fn lemma_tamer_simple(new: Expr, old: Expr, threshold: nat)
    requires
        old !is And,
        expr_variables(new).subset_of(expr_variables(old)),
        contains_exists(new) ==> contains_exists(old),
        expr_has_subclass_path(new) ==> expr_has_subclass_path(old),
        expr_paths(new).subset_of(expr_paths(old)),
        plain_expr(old) ==> plain_expr(new),
        old == truth(true) ==> new == truth(true),
        proper_expr(old) ==> proper_expr(new),
        never_nan(old) ==> never_nan(new),
        has_kind(old) ==> has_kind(new),
        gives_literal(old) ==> gives_literal(new),
        forall|sure: Names, outside: Names|
            scoped_expr(old, sure, outside, threshold) ==> #[trigger] scoped_expr(
                new,
                sure,
                outside,
                threshold,
            ),
    ensures
        tamer_expr(new, old, threshold),
{
    assert forall|late: Names, sure: Names| exists_covered(old, late, sure) implies
        #[trigger] exists_covered(new, late, sure) by {
        lemma_covered_less(new, old, late, sure);
    }
}

/// A constant is tamer than any expression.
pub proof fn lemma_truth_tamer(value: bool, old: Expr, threshold: nat)
    requires
        value || old != truth(true),
    ensures
        tamer_expr(truth(value), old, threshold),
{
    let t = truth(value);
    assert forall|sure: Names, outside: Names| scoped_expr(old, sure, outside, threshold) implies
        #[trigger] scoped_expr(t, sure, outside, threshold) by {
        lemma_bool_truth(arbitrary(), value);
    }
    lemma_bool_truth(arbitrary(), value);
    assert(expr_variables(t) =~= set![]);
    assert forall|late: Names, sure: Names| exists_covered(old, late, sure) implies
        #[trigger] exists_covered(t, late, sure) by {
    }
}

pub proof fn lemma_boolean_kind(expression: Expr)
    requires
        returns_boolean(expression),
    ensures
        has_kind(expression),
        gives_literal(expression),
        never_nan(expression),
    decreases expression,
{
    if let Expr::If(_, then_case, else_case) = expression {
        lemma_boolean_kind(*then_case);
        lemma_boolean_kind(*else_case);
    }
    reveal_strlit("http://www.w3.org/2001/XMLSchema#boolean");
    reveal_strlit("http://www.w3.org/2001/XMLSchema#float");
    reveal_strlit("http://www.w3.org/2001/XMLSchema#double");
    assert(XSD_BOOLEAN@.len() != XSD_FLOAT@.len() && XSD_BOOLEAN@.len() != XSD_DOUBLE@.len());
}

/// Lists of expressions, one by one.
pub proof fn lemma_list_tamer(new: Seq<Expr>, old: Seq<Expr>, threshold: nat)
    requires
        all_tamer_exprs(new, old, threshold),
    ensures
        exprs_variables(new).subset_of(exprs_variables(old)),
        any_contains_exists(new) ==> any_contains_exists(old),
        any_expr_has_subclass_path(new) ==> any_expr_has_subclass_path(old),
        all_expr_paths(new).subset_of(all_expr_paths(old)),
        all_plain_exprs(old) ==> all_plain_exprs(new),
        all_have_kind(old) ==> all_have_kind(new),
        all_proper_exprs(old) ==> all_proper_exprs(new),
        forall|sure: Names, outside: Names|
            all_scoped_exprs(old, sure, outside, threshold) ==> #[trigger] all_scoped_exprs(
                new,
                sure,
                outside,
                threshold,
            ),
        tamer_expr(Expr::And(new), Expr::And(old), threshold),
        tamer_expr(Expr::Or(new), Expr::Or(old), threshold),
        tamer_expr(Expr::Coalesce(new), Expr::Coalesce(old), threshold),
{
    assert forall|v: Seq<char>| #[trigger] exprs_variables(new).contains(v) implies exprs_variables(
        old,
    ).contains(v) by {
        let i = choose|i: int|
            0 <= i < new.len() && expr_variables(#[trigger] new[i]).contains(v);
        assert(tamer_expr(new[i], old[i], threshold));
        assert(expr_variables(old[i]).contains(v));
    }
    if any_contains_exists(new) {
        let i = choose|i: int| 0 <= i < new.len() && contains_exists(#[trigger] new[i]);
        assert(tamer_expr(new[i], old[i], threshold));
        assert(contains_exists(old[i]));
    }
    if any_expr_has_subclass_path(new) {
        let i = choose|i: int| 0 <= i < new.len() && expr_has_subclass_path(#[trigger] new[i]);
        assert(tamer_expr(new[i], old[i], threshold));
        assert(expr_has_subclass_path(old[i]));
    }
    assert forall|p: (Trace, bool)| #[trigger] all_expr_paths(new).contains(p) implies all_expr_paths(
        old,
    ).contains(p) by {
        let i = choose|i: int| 0 <= i < new.len() && expr_paths(#[trigger] new[i]).contains(p);
        assert(tamer_expr(new[i], old[i], threshold));
        assert(expr_paths(old[i]).contains(p));
    }
    if all_plain_exprs(old) {
        assert forall|i: int| 0 <= i < new.len() implies plain_expr(#[trigger] new[i]) by {
            assert(plain_expr(old[i]));
        }
    }
    if all_proper_exprs(old) {
        assert forall|i: int| 0 <= i < new.len() implies proper_expr(#[trigger] new[i]) by {
            assert(proper_expr(old[i]));
        }
    }
    if all_have_kind(old) {
        assert forall|i: int| 0 <= i < new.len() implies has_kind(#[trigger] new[i]) by {
            assert(has_kind(old[i]));
        }
    }
    assert forall|sure: Names, outside: Names| all_scoped_exprs(
        old,
        sure,
        outside,
        threshold,
    ) implies
        #[trigger] all_scoped_exprs(new, sure, outside, threshold) by {
        assert forall|i: int| 0 <= i < new.len() implies scoped_expr(
            #[trigger] new[i],
            sure,
            outside,
            threshold,
        ) by {
            assert(scoped_expr(old[i], sure, outside, threshold));
        }
    }
    let (a, b) = (Expr::And(new), Expr::And(old));
    assert(expr_has_subclass_path(a) == any_expr_has_subclass_path(new));
    assert(expr_has_subclass_path(b) == any_expr_has_subclass_path(old));
    assert(expr_paths(a) == all_expr_paths(new));
    assert(expr_paths(b) == all_expr_paths(old));
    assert(plain_expr(a) == all_plain_exprs(new));
    assert(plain_expr(b) == all_plain_exprs(old));
    assert forall|sure: Names, outside: Names| scoped_expr(b, sure, outside, threshold) implies
        #[trigger] scoped_expr(a, sure, outside, threshold) by {
        assert(all_scoped_exprs(new, sure, outside, threshold));
    }
    assert forall|late: Names, sure: Names| exists_covered(b, late, sure) implies
        #[trigger] exists_covered(a, late, sure) by {
        assert(all_exists_covered(old, late, sure));
        assert forall|i: int| 0 <= i < new.len() implies exists_covered(
            #[trigger] new[i],
            late,
            sure,
        ) by {
            assert(exists_covered(old[i], late, sure));
        }
        assert(all_exists_covered(new, late, sure));
    }
    assert(proper_expr(a) == all_proper_exprs(new));
    assert(proper_expr(b) == all_proper_exprs(old));
    let (a, b) = (Expr::Or(new), Expr::Or(old));
    assert(proper_expr(a) == all_proper_exprs(new));
    assert(proper_expr(b) == all_proper_exprs(old));
    assert forall|sure: Names, outside: Names| scoped_expr(b, sure, outside, threshold) implies
        #[trigger] scoped_expr(a, sure, outside, threshold) by {
        assert(all_scoped_exprs(new, sure, outside, threshold));
    }
    assert(expr_variables(a) == exprs_variables(new));
    assert(expr_variables(b) == exprs_variables(old));
    assert(contains_exists(a) == any_contains_exists(new));
    assert(contains_exists(b) == any_contains_exists(old));
    assert(expr_has_subclass_path(a) == any_expr_has_subclass_path(new));
    assert(expr_has_subclass_path(b) == any_expr_has_subclass_path(old));
    assert(expr_paths(a) == all_expr_paths(new));
    assert(expr_paths(b) == all_expr_paths(old));
    assert(plain_expr(a) == all_plain_exprs(new));
    assert(plain_expr(b) == all_plain_exprs(old));
    lemma_tamer_simple(a, b, threshold);
    let (a, b) = (Expr::Coalesce(new), Expr::Coalesce(old));
    if old.len() > 0 {
        assert(tamer_expr(new[0], old[0], threshold));
    }
    assert(has_kind(b) == all_have_kind(old));
    assert(has_kind(a) == all_have_kind(new));
    assert forall|sure: Names, outside: Names| scoped_expr(b, sure, outside, threshold) implies
        #[trigger] scoped_expr(a, sure, outside, threshold) by {
        assert(all_scoped_exprs(new, sure, outside, threshold));
    }
    assert(expr_variables(a) == exprs_variables(new));
    assert(expr_variables(b) == exprs_variables(old));
    assert(contains_exists(a) == any_contains_exists(new));
    assert(contains_exists(b) == any_contains_exists(old));
    assert(expr_has_subclass_path(a) == any_expr_has_subclass_path(new));
    assert(expr_has_subclass_path(b) == any_expr_has_subclass_path(old));
    assert(expr_paths(a) == all_expr_paths(new));
    assert(expr_paths(b) == all_expr_paths(old));
    assert(plain_expr(a) == all_plain_exprs(new));
    assert(plain_expr(b) == all_plain_exprs(old));
    lemma_tamer_simple(a, b, threshold);
}

pub proof fn lemma_call_tamer(name: FunctionView, new: Seq<Expr>, old: Seq<Expr>, threshold: nat)
    requires
        all_tamer_exprs(new, old, threshold),
    ensures
        tamer_expr(Expr::FunctionCall(name, new), Expr::FunctionCall(name, old), threshold),
{
    lemma_list_tamer(new, old, threshold);
    let (a, b) = (Expr::FunctionCall(name, new), Expr::FunctionCall(name, old));
    assert forall|sure: Names, outside: Names| scoped_expr(b, sure, outside, threshold) implies
        #[trigger] scoped_expr(a, sure, outside, threshold) by {
        assert(all_scoped_exprs(new, sure, outside, threshold));
    }
    assert(expr_variables(a) == exprs_variables(new));
    assert(expr_variables(b) == exprs_variables(old));
    assert(contains_exists(a) == any_contains_exists(new));
    assert(contains_exists(b) == any_contains_exists(old));
    assert(expr_has_subclass_path(a) == any_expr_has_subclass_path(new));
    assert(expr_has_subclass_path(b) == any_expr_has_subclass_path(old));
    assert(expr_paths(a) == all_expr_paths(new));
    assert(expr_paths(b) == all_expr_paths(old));
    assert(plain_expr(a) == all_plain_exprs(new));
    assert(plain_expr(b) == all_plain_exprs(old));
    lemma_tamer_simple(a, b, threshold);
}

/// Whether an expression is an argument of a conjunction or one of its parts.
pub open spec fn is_part(part: Expr, whole: Expr) -> bool {
    part == whole || match whole {
        Expr::And(inner) | Expr::Or(inner) => inner.contains(part),
        _ => false,
    }
}

pub proof fn lemma_part(part: Expr, whole: Expr, threshold: nat)
    requires
        is_part(part, whole),
    ensures
        expr_variables(part).subset_of(expr_variables(whole)),
        contains_exists(part) ==> contains_exists(whole),
        expr_has_subclass_path(part) ==> expr_has_subclass_path(whole),
        expr_paths(part).subset_of(expr_paths(whole)),
        plain_expr(whole) ==> plain_expr(part),
        forall|sure: Names, outside: Names|
            scoped_expr(whole, sure, outside, threshold) ==> #[trigger] scoped_expr(
                part,
                sure,
                outside,
                threshold,
            ),
        forall|late: Names, sure: Names|
            exists_covered(whole, late, sure) ==> #[trigger] exists_covered(part, late, sure),
{
    if part != whole {
        let inner = match whole {
            Expr::And(inner) | Expr::Or(inner) => inner,
            _ => arbitrary(),
        };
        let i = choose|i: int| 0 <= i < inner.len() && inner[i] == part;
        lemma_part_variables(inner, i);
        if contains_exists(part) {
            assert(contains_exists(inner[i]));
            assert(any_contains_exists(inner));
        }
        if expr_has_subclass_path(part) {
            assert(expr_has_subclass_path(inner[i]));
            assert(any_expr_has_subclass_path(inner));
        }
        assert(expr_paths(whole) == all_expr_paths(inner));
        assert forall|p: (Trace, bool)| #[trigger] expr_paths(part).contains(p) implies all_expr_paths(
            inner,
        ).contains(p) by {
            assert(expr_paths(inner[i]).contains(p));
        }
        if plain_expr(whole) {
            assert(all_plain_exprs(inner));
            assert(plain_expr(inner[i]));
        }
        assert forall|sure: Names, outside: Names| scoped_expr(
            whole,
            sure,
            outside,
            threshold,
        ) implies
            #[trigger] scoped_expr(part, sure, outside, threshold) by {
            assert(all_scoped_exprs(inner, sure, outside, threshold));
            assert(scoped_expr(inner[i], sure, outside, threshold));
        }
        assert forall|late: Names, sure: Names| exists_covered(whole, late, sure) implies
            #[trigger] exists_covered(part, late, sure) by {
            if whole is And {
                assert(all_exists_covered(inner, late, sure));
                assert(exists_covered(inner[i], late, sure));
            } else {
                lemma_covered_less(part, whole, late, sure);
            }
        }
    }
}

/// The flattened arguments of a conjunction, or of a disjunction.
pub open spec fn flat_parts(expressions: Seq<Expr>, conjunctive: bool) -> Seq<Expr> {
    if conjunctive {
        all_conjuncts(expressions)
    } else {
        all_disjuncts(expressions)
    }
}

/// A flattened list of arguments consists of arguments and their parts.
proof fn lemma_flat_origin(expressions: Seq<Expr>, k: int, conjunctive: bool) -> (i: int)
    requires
        0 <= k < flat_parts(expressions, conjunctive).len(),
    ensures
        0 <= i < expressions.len(),
        is_part(flat_parts(expressions, conjunctive)[k], expressions[i]),
    decreases expressions.len(),
{
    let shorter = expressions.drop_last();
    let last = expressions.last();
    let before = flat_parts(shorter, conjunctive);
    let parts = if conjunctive {
        conjuncts(last)
    } else {
        disjuncts(last)
    };
    if k < before.len() {
        let i = lemma_flat_origin(shorter, k, conjunctive);
        i
    } else {
        assert(parts.contains(parts[k - before.len()]));
        expressions.len() - 1
    }
}

proof fn lemma_flat(expressions: Seq<Expr>, conjunctive: bool, threshold: nat)
    ensures
        exprs_variables(flat_parts(expressions, conjunctive)).subset_of(
            exprs_variables(expressions),
        ),
        any_contains_exists(flat_parts(expressions, conjunctive)) ==> any_contains_exists(
            expressions,
        ),
        any_expr_has_subclass_path(flat_parts(expressions, conjunctive))
            ==> any_expr_has_subclass_path(expressions),
        all_expr_paths(flat_parts(expressions, conjunctive)).subset_of(all_expr_paths(expressions)),
        all_plain_exprs(expressions) ==> all_plain_exprs(flat_parts(expressions, conjunctive)),
        forall|sure: Names, outside: Names|
            all_scoped_exprs(expressions, sure, outside, threshold) ==> #[trigger] all_scoped_exprs(
                flat_parts(expressions, conjunctive),
                sure,
                outside,
                threshold,
            ),
        all_proper_exprs(expressions) ==> all_proper_exprs(flat_parts(expressions, conjunctive)),
        forall|late: Names, sure: Names|
            all_exists_covered(expressions, late, sure) ==> #[trigger] all_exists_covered(
                flat_parts(expressions, conjunctive),
                late,
                sure,
            ),
{
    let flat = flat_parts(expressions, conjunctive);
    if all_proper_exprs(expressions) {
        lemma_conjuncts_proper(expressions);
    }
    assert forall|v: Seq<char>| #[trigger] exprs_variables(flat).contains(v) implies
        exprs_variables(expressions).contains(v) by {
        let k = choose|k: int|
            0 <= k < flat.len() && expr_variables(#[trigger] flat[k]).contains(v);
        let i = lemma_flat_origin(expressions, k, conjunctive);
        lemma_part(flat[k], expressions[i], threshold);
        assert(expr_variables(expressions[i]).contains(v));
    }
    if any_contains_exists(flat) {
        let k = choose|k: int| 0 <= k < flat.len() && contains_exists(#[trigger] flat[k]);
        let i = lemma_flat_origin(expressions, k, conjunctive);
        lemma_part(flat[k], expressions[i], threshold);
        assert(contains_exists(expressions[i]));
    }
    if any_expr_has_subclass_path(flat) {
        let k = choose|k: int| 0 <= k < flat.len() && expr_has_subclass_path(#[trigger] flat[k]);
        let i = lemma_flat_origin(expressions, k, conjunctive);
        lemma_part(flat[k], expressions[i], threshold);
        assert(expr_has_subclass_path(expressions[i]));
    }
    assert forall|p: (Trace, bool)| #[trigger] all_expr_paths(flat).contains(p) implies all_expr_paths(
        expressions,
    ).contains(p) by {
        let k = choose|k: int| 0 <= k < flat.len() && expr_paths(#[trigger] flat[k]).contains(p);
        let i = lemma_flat_origin(expressions, k, conjunctive);
        lemma_part(flat[k], expressions[i], threshold);
        assert(expr_paths(expressions[i]).contains(p));
    }
    if all_plain_exprs(expressions) {
        assert forall|k: int| 0 <= k < flat.len() implies plain_expr(#[trigger] flat[k]) by {
            let i = lemma_flat_origin(expressions, k, conjunctive);
            lemma_part(flat[k], expressions[i], threshold);
            assert(plain_expr(expressions[i]));
        }
    }
    assert forall|sure: Names, outside: Names| all_scoped_exprs(
        expressions,
        sure,
        outside,
        threshold,
    ) implies
        #[trigger] all_scoped_exprs(flat, sure, outside, threshold) by {
        assert forall|k: int| 0 <= k < flat.len() implies scoped_expr(
            #[trigger] flat[k],
            sure,
            outside,
            threshold,
        ) by {
            let i = lemma_flat_origin(expressions, k, conjunctive);
            lemma_part(flat[k], expressions[i], threshold);
            assert(scoped_expr(expressions[i], sure, outside, threshold));
        }
    }
    assert forall|late: Names, sure: Names| all_exists_covered(expressions, late, sure) implies
        #[trigger] all_exists_covered(flat, late, sure) by {
        assert forall|k: int| 0 <= k < flat.len() implies exists_covered(
            #[trigger] flat[k],
            late,
            sure,
        ) by {
            let i = lemma_flat_origin(expressions, k, conjunctive);
            lemma_part(flat[k], expressions[i], threshold);
            assert(exists_covered(expressions[i], late, sure));
        }
    }
}

pub proof fn lemma_and_tamer(expressions: Seq<Expr>, threshold: nat)
    ensures
        tamer_expr(and_all(expressions), Expr::And(expressions), threshold),
{
    let old = Expr::And(expressions);
    let new = and_all(expressions);
    let flat = flat_parts(expressions, true);
    lemma_flat(expressions, true, threshold);
    assert(proper_expr(old) == all_proper_exprs(expressions));
    assert(all_proper_exprs(expressions) && flat.len() > 0 ==> proper_expr(flat[0]));
    lemma_truth_tamer(true, old, threshold);
    lemma_truth_tamer(false, old, threshold);
    if new != truth(true) && new != truth(false) {
        assert forall|sure: Names, outside: Names| scoped_expr(
            old,
            sure,
            outside,
            threshold,
        ) implies
            #[trigger] scoped_expr(new, sure, outside, threshold) by {
            assert(all_scoped_exprs(expressions, sure, outside, threshold));
            assert(all_scoped_exprs(flat, sure, outside, threshold));
            assert(all_proper_exprs(expressions));
            if new != Expr::And(flat) {
                assert(scoped_expr(flat[0], sure, outside, threshold));
            }
        }
        assert forall|late: Names, sure: Names| exists_covered(old, late, sure) implies
            #[trigger] exists_covered(new, late, sure) by {
            assert(all_exists_covered(expressions, late, sure));
            assert(all_exists_covered(flat, late, sure));
            if new != Expr::And(flat) {
                assert(exists_covered(flat[0], late, sure));
            }
        }
        assert(expr_has_subclass_path(old) == any_expr_has_subclass_path(expressions));
        assert(expr_paths(old) == all_expr_paths(expressions));
        assert(plain_expr(old) == all_plain_exprs(expressions));
        if new == Expr::And(flat) {
            assert(expr_has_subclass_path(new) == any_expr_has_subclass_path(flat));
            assert(expr_paths(new) == all_expr_paths(flat));
            assert(plain_expr(new) == all_plain_exprs(flat));
        } else {
            lemma_boolean_kind(new);
            lemma_part_variables(flat, 0);
            if expr_has_subclass_path(new) {
                assert(expr_has_subclass_path(flat[0]));
                assert(any_expr_has_subclass_path(flat));
            }
            assert forall|p: (Trace, bool)| #[trigger] expr_paths(new).contains(p) implies all_expr_paths(
                flat,
            ).contains(p) by {
                assert(expr_paths(flat[0]).contains(p));
            }
            if all_plain_exprs(flat) {
                assert(plain_expr(flat[0]));
            }
            if contains_exists(new) {
                assert(contains_exists(flat[0]));
                assert(any_contains_exists(flat));
            }
        }
    }
}

pub proof fn lemma_or_tamer(expressions: Seq<Expr>, threshold: nat)
    ensures
        tamer_expr(or_all(expressions), Expr::Or(expressions), threshold),
{
    let old = Expr::Or(expressions);
    let new = or_all(expressions);
    let flat = flat_parts(expressions, false);
    lemma_flat(expressions, false, threshold);
    assert(proper_expr(old) == all_proper_exprs(expressions));
    assert(all_proper_exprs(expressions) && flat.len() > 0 ==> proper_expr(flat[0]));
    lemma_truth_tamer(true, old, threshold);
    lemma_truth_tamer(false, old, threshold);
    if new != truth(true) && new != truth(false) {
        assert forall|sure: Names, outside: Names| scoped_expr(
            old,
            sure,
            outside,
            threshold,
        ) implies
            #[trigger] scoped_expr(new, sure, outside, threshold) by {
            assert(all_scoped_exprs(expressions, sure, outside, threshold));
            assert(all_scoped_exprs(flat, sure, outside, threshold));
            assert(all_proper_exprs(expressions));
            if new != Expr::Or(flat) {
                assert(scoped_expr(flat[0], sure, outside, threshold));
            }
        }
        assert(expr_has_subclass_path(old) == any_expr_has_subclass_path(expressions));
        assert(expr_paths(old) == all_expr_paths(expressions));
        assert(plain_expr(old) == all_plain_exprs(expressions));
        if new == Expr::Or(flat) {
            assert(expr_has_subclass_path(new) == any_expr_has_subclass_path(flat));
            assert(expr_paths(new) == all_expr_paths(flat));
            assert(plain_expr(new) == all_plain_exprs(flat));
        } else {
            lemma_boolean_kind(new);
            lemma_part_variables(flat, 0);
            if expr_has_subclass_path(new) {
                assert(expr_has_subclass_path(flat[0]));
                assert(any_expr_has_subclass_path(flat));
            }
            assert forall|p: (Trace, bool)| #[trigger] expr_paths(new).contains(p) implies all_expr_paths(
                flat,
            ).contains(p) by {
                assert(expr_paths(flat[0]).contains(p));
            }
            if all_plain_exprs(flat) {
                assert(plain_expr(flat[0]));
            }
            if contains_exists(new) {
                assert(contains_exists(flat[0]));
                assert(any_contains_exists(flat));
            }
        }
        lemma_tamer_simple(new, old, threshold);
    }
}

pub proof fn lemma_not_tamer(expression: Expr, threshold: nat)
    ensures
        tamer_expr(not(expression), Expr::Not(Box::new(expression)), threshold),
{
    let old = Expr::Not(Box::new(expression));
    let new = not(expression);
    lemma_truth_tamer(true, old, threshold);
    lemma_truth_tamer(false, old, threshold);
    if known_truth(expression) is None {
        if let Expr::Not(inner) = expression {
            if returns_boolean(*inner) {
                lemma_boolean_kind(*inner);
                assert forall|sure: Names, outside: Names| scoped_expr(
                    old,
                    sure,
                    outside,
                    threshold,
                ) implies
                    #[trigger] scoped_expr(new, sure, outside, threshold) by {
                    assert(scoped_expr(expression, sure, outside, threshold));
                }
                assert(contains_exists(expression) == contains_exists(*inner));
                assert(expr_has_subclass_path(expression) == expr_has_subclass_path(*inner));
                assert(expr_paths(expression) == expr_paths(*inner));
                assert(plain_expr(expression) == plain_expr(*inner));
                assert(expr_variables(expression) == expr_variables(*inner));
                assert(proper_expr(expression) == proper_expr(*inner));
                lemma_tamer_simple(new, old, threshold);
            } else {
                let one = seq![*inner];
                assert(exprs_variables(one) =~= expr_variables(*inner)) by {
                    lemma_part_variables(one, 0);
                }
                assert(expr_variables(expression) == expr_variables(*inner));
                assert(contains_exists(expression) == contains_exists(*inner));
                assert(proper_expr(new) == all_proper_exprs(one));
                assert(proper_expr(expression) == proper_expr(*inner));
                assert forall|sure: Names, outside: Names| scoped_expr(
                    old,
                    sure,
                    outside,
                    threshold,
                ) implies
                    #[trigger] scoped_expr(new, sure, outside, threshold) by {
                    assert(scoped_expr(expression, sure, outside, threshold));
                    assert(all_scoped_exprs(one, sure, outside, threshold));
                }
                if contains_exists(new) {
                    assert(any_contains_exists(one));
                }
                assert(expr_has_subclass_path(expression) == expr_has_subclass_path(*inner));
                assert(expr_has_subclass_path(new) == any_expr_has_subclass_path(one));
                assert(expr_paths(expression) == expr_paths(*inner));
                assert(plain_expr(expression) == plain_expr(*inner));
                assert(plain_expr(new) == all_plain_exprs(one));
                assert(expr_paths(new) == all_expr_paths(one));
                assert(all_expr_paths(one) =~= expr_paths(*inner)) by {
                    assert(one[0] == *inner);
                }
                lemma_tamer_simple(new, old, threshold);
            }
        } else {
            lemma_tamer_simple(new, old, threshold);
        }
    }
}

pub proof fn lemma_equal_tamer(left: Expr, right: Expr, threshold: nat)
    ensures
        tamer_expr(equal(left, right), Expr::Equal(Box::new(left), Box::new(right)), threshold),
        tamer_expr(
            same_term(left, right),
            Expr::SameTerm(Box::new(left), Box::new(right)),
            threshold,
        ),
        tamer_expr(same_term(left, right), Expr::Equal(Box::new(left), Box::new(right)), threshold),
{
    let a = Expr::Equal(Box::new(left), Box::new(right));
    let b = Expr::SameTerm(Box::new(left), Box::new(right));
    lemma_truth_tamer(true, a, threshold);
    lemma_truth_tamer(false, a, threshold);
    lemma_truth_tamer(true, b, threshold);
    lemma_truth_tamer(false, b, threshold);
    lemma_tamer_simple(a, a, threshold);
    lemma_tamer_simple(b, b, threshold);
    lemma_tamer_simple(b, a, threshold);
}

pub proof fn lemma_if_tamer(condition: Expr, then_case: Expr, else_case: Expr, threshold: nat)
    ensures
        tamer_expr(
            if_cond(condition, then_case, else_case),
            Expr::If(Box::new(condition), Box::new(then_case), Box::new(else_case)),
            threshold,
        ),
{
    let old = Expr::If(Box::new(condition), Box::new(then_case), Box::new(else_case));
    lemma_tamer_simple(if_cond(condition, then_case, else_case), old, threshold);
}

pub proof fn lemma_exists_tamer(inner: Plan, threshold: nat)
    ensures
        tamer_expr(exists_plan(inner), Expr::Exists(Box::new(inner)), threshold),
{
    let old = Expr::Exists(Box::new(inner));
    lemma_truth_tamer(true, old, threshold);
    lemma_truth_tamer(false, old, threshold);
    lemma_tamer_simple(old, old, threshold);
}

/// Expressions of which the parts are tamer.
pub open spec fn parts_tamer(new: Expr, old: Expr, threshold: nat) -> bool {
    match old {
        Expr::Equal(a, b) => match new {
            Expr::Equal(c, d) => tamer_expr(*c, *a, threshold) && tamer_expr(*d, *b, threshold),
            _ => false,
        },
        Expr::SameTerm(a, b) => match new {
            Expr::SameTerm(c, d) => tamer_expr(*c, *a, threshold) && tamer_expr(*d, *b, threshold),
            _ => false,
        },
        Expr::Greater(a, b) => match new {
            Expr::Greater(c, d) => tamer_expr(*c, *a, threshold) && tamer_expr(*d, *b, threshold),
            _ => false,
        },
        Expr::GreaterOrEqual(a, b) => match new {
            Expr::GreaterOrEqual(c, d) => tamer_expr(*c, *a, threshold) && tamer_expr(
                *d,
                *b,
                threshold,
            ),
            _ => false,
        },
        Expr::Less(a, b) => match new {
            Expr::Less(c, d) => tamer_expr(*c, *a, threshold) && tamer_expr(*d, *b, threshold),
            _ => false,
        },
        Expr::LessOrEqual(a, b) => match new {
            Expr::LessOrEqual(c, d) => tamer_expr(*c, *a, threshold) && tamer_expr(
                *d,
                *b,
                threshold,
            ),
            _ => false,
        },
        Expr::Add(a, b) => match new {
            Expr::Add(c, d) => tamer_expr(*c, *a, threshold) && tamer_expr(*d, *b, threshold),
            _ => false,
        },
        Expr::Subtract(a, b) => match new {
            Expr::Subtract(c, d) => tamer_expr(*c, *a, threshold) && tamer_expr(*d, *b, threshold),
            _ => false,
        },
        Expr::Multiply(a, b) => match new {
            Expr::Multiply(c, d) => tamer_expr(*c, *a, threshold) && tamer_expr(*d, *b, threshold),
            _ => false,
        },
        Expr::Divide(a, b) => match new {
            Expr::Divide(c, d) => tamer_expr(*c, *a, threshold) && tamer_expr(*d, *b, threshold),
            _ => false,
        },
        Expr::UnaryPlus(a) => match new {
            Expr::UnaryPlus(c) => tamer_expr(*c, *a, threshold),
            _ => false,
        },
        Expr::UnaryMinus(a) => match new {
            Expr::UnaryMinus(c) => tamer_expr(*c, *a, threshold),
            _ => false,
        },
        Expr::Not(a) => match new {
            Expr::Not(c) => tamer_expr(*c, *a, threshold),
            _ => false,
        },
        Expr::If(a, b, c) => match new {
            Expr::If(d, e, f) => tamer_expr(*d, *a, threshold) && tamer_expr(*e, *b, threshold) && tamer_expr(
                *f,
                *c,
                threshold,
            ),
            _ => false,
        },
        Expr::Exists(a) => match new {
            Expr::Exists(c) => tamer(*c, *a, threshold),
            _ => false,
        },
        _ => false,
    }
}

#[verifier::spinoff_prover]
#[verifier::rlimit(40)]
pub proof fn lemma_parts_tamer(new: Expr, old: Expr, threshold: nat)
    requires
        parts_tamer(new, old, threshold),
    ensures
        tamer_expr(new, old, threshold),
{
    assert forall|sure: Names, outside: Names| scoped_expr(old, sure, outside, threshold) implies
        #[trigger] scoped_expr(new, sure, outside, threshold) by {
        match (new, old) {
            (Expr::Exists(c), Expr::Exists(a)) => {
                assert(scoped(*c, sure, outside, set![], threshold));
                lemma_plan_finite(*a);
                lemma_len_subset(plan_variables(*c), plan_variables(*a));
            },
            (Expr::Equal(c, d), Expr::Equal(a, b)) => {
                assert(scoped_expr(*c, sure, outside, threshold) && scoped_expr(
                    *d,
                    sure,
                    outside,
                    threshold,
                ));
            },
            (Expr::SameTerm(c, d), Expr::SameTerm(a, b)) => {
                assert(scoped_expr(*c, sure, outside, threshold) && scoped_expr(
                    *d,
                    sure,
                    outside,
                    threshold,
                ));
            },
            (Expr::Greater(c, d), Expr::Greater(a, b)) => {
                assert(scoped_expr(*c, sure, outside, threshold) && scoped_expr(
                    *d,
                    sure,
                    outside,
                    threshold,
                ));
            },
            (Expr::GreaterOrEqual(c, d), Expr::GreaterOrEqual(a, b)) => {
                assert(scoped_expr(*c, sure, outside, threshold) && scoped_expr(
                    *d,
                    sure,
                    outside,
                    threshold,
                ));
            },
            (Expr::Less(c, d), Expr::Less(a, b)) => {
                assert(scoped_expr(*c, sure, outside, threshold) && scoped_expr(
                    *d,
                    sure,
                    outside,
                    threshold,
                ));
            },
            (Expr::LessOrEqual(c, d), Expr::LessOrEqual(a, b)) => {
                assert(scoped_expr(*c, sure, outside, threshold) && scoped_expr(
                    *d,
                    sure,
                    outside,
                    threshold,
                ));
            },
            (Expr::Add(c, d), Expr::Add(a, b)) => {
                assert(scoped_expr(*c, sure, outside, threshold) && scoped_expr(
                    *d,
                    sure,
                    outside,
                    threshold,
                ));
            },
            (Expr::Subtract(c, d), Expr::Subtract(a, b)) => {
                assert(scoped_expr(*c, sure, outside, threshold) && scoped_expr(
                    *d,
                    sure,
                    outside,
                    threshold,
                ));
            },
            (Expr::Multiply(c, d), Expr::Multiply(a, b)) => {
                assert(scoped_expr(*c, sure, outside, threshold) && scoped_expr(
                    *d,
                    sure,
                    outside,
                    threshold,
                ));
            },
            (Expr::Divide(c, d), Expr::Divide(a, b)) => {
                assert(scoped_expr(*c, sure, outside, threshold) && scoped_expr(
                    *d,
                    sure,
                    outside,
                    threshold,
                ));
            },
            (Expr::UnaryPlus(c), Expr::UnaryPlus(a)) => {
                assert(scoped_expr(*c, sure, outside, threshold));
            },
            (Expr::UnaryMinus(c), Expr::UnaryMinus(a)) => {
                assert(scoped_expr(*c, sure, outside, threshold));
            },
            (Expr::Not(c), Expr::Not(a)) => {
                assert(scoped_expr(*c, sure, outside, threshold));
            },
            (Expr::If(d, e, f), Expr::If(a, b, c)) => {
                assert(scoped_expr(*d, sure, outside, threshold) && scoped_expr(
                    *e,
                    sure,
                    outside,
                    threshold,
                )
                    && scoped_expr(*f, sure, outside, threshold));
            },
            _ => {},
        }
    }
    lemma_tamer_simple(new, old, threshold);
}

} // verus!
