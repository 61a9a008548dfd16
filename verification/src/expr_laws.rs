//! The simplifications that building an expression makes keep its value.

use vstd::prelude::*;

use crate::algebra::Expr;
use crate::builders::{
    all_conjuncts, all_disjuncts, and_all, conjuncts, disjuncts, equal, if_cond, known_truth,
    literal_truth, not, or_all, returns_boolean, same_term, truth, without_singleton_and,
};
use crate::scope::{all_proper_exprs, is_proper, never_nan, proper_expr};
use crate::semantics::{
    bool_term, bool_value, conjunction, disjunction, holds, is_boolean, is_comparison, is_nan,
    literal_value, operated, regular, truth_of, truths, value, values, Operator, World,
};
use crate::solutions::{Solution, Term};
use crate::term::{boolean_literal, XSD_BOOLEAN};

verus! {

/// A boolean has itself as its effective boolean value.
pub proof fn lemma_bool_truth(world: World, b: bool)
    ensures
        truth_of(world, Some(bool_term(b))) == Some(b),
        literal_value(boolean_literal(b)) == bool_term(b),
        literal_truth(boolean_literal(b)) == Some(b),
        bool_term(true) != bool_term(false),
        is_proper(boolean_literal(b)),
        !is_nan(boolean_literal(b)),
{
    reveal_strlit("NaN");
    assert("NaN"@[0] == 'N');
    reveal_strlit("true");
    reveal_strlit("false");
    reveal_strlit("1");
    reveal_strlit("0");
    assert("true"@[0] == 't');
    assert("false"@[0] == 'f');
    assert("1"@[0] == '1');
    assert("0"@[0] == '0');
}

pub proof fn lemma_bool_value_truth(world: World, b: Option<bool>)
    ensures
        truth_of(world, bool_value(b)) == b,
{
    lemma_bool_truth(world, true);
    lemma_bool_truth(world, false);
}

/// The truth of a constant is known.
pub proof fn lemma_known(world: World, expression: Expr, s: Solution)
    ensures
        known_truth(expression) matches Some(b) ==> truth_of(world, value(world, expression, s))
            == Some(b),
        forall|b: bool| #[trigger] value(world, truth(b), s) == Some(bool_term(b)),
        forall|b: bool|
            truth_of(world, #[trigger] value(world, truth(b), s)) == Some(b),
{
    lemma_bool_truth(world, true);
    lemma_bool_truth(world, false);
    if let Expr::Literal(literal) = expression {
        if let Some(b) = literal_truth(literal) {
            if literal.datatype == XSD_BOOLEAN@ {
                assert(literal_value(literal) == bool_term(b));
            } else {
                assert(literal_value(literal) == Term::Literal(literal));
            }
        }
    }
    assert forall|b: bool|
        #[trigger] value(world, truth(b), s) == Some(bool_term(b)) && truth_of(
            world,
            value(world, truth(b), s),
        ) == Some(b) by {
        lemma_bool_truth(world, b);
    }
}

/// An expression that gives booleans has a boolean value, or none.
pub proof fn lemma_returns_boolean(
    world: World,
    expression: Expr,
    s: Solution,
)
    requires
        regular(world),
        returns_boolean(expression),
        proper_expr(expression),
    ensures
        value(world, expression, s) == bool_value(
            truth_of(world, value(world, expression, s)),
        ),
    decreases expression,
{
    lemma_bool_truth(world, true);
    lemma_bool_truth(world, false);
    let v = value(world, expression, s);
    match expression {
        Expr::Greater(left, right) => {
            lemma_comparison(
                world,
                Operator::Greater,
                value(world, *left, s),
                value(world, *right, s),
            );
        },
        Expr::GreaterOrEqual(left, right) => {
            lemma_comparison(
                world,
                Operator::GreaterOrEqual,
                value(world, *left, s),
                value(world, *right, s),
            );
        },
        Expr::Less(left, right) => {
            lemma_comparison(
                world,
                Operator::Less,
                value(world, *left, s),
                value(world, *right, s),
            );
        },
        Expr::LessOrEqual(left, right) => {
            lemma_comparison(
                world,
                Operator::LessOrEqual,
                value(world, *left, s),
                value(world, *right, s),
            );
        },
        Expr::If(condition, then_case, else_case) => {
            lemma_returns_boolean(world, *then_case, s);
            lemma_returns_boolean(world, *else_case, s);
        },
        Expr::FunctionCall(name, arguments) => {
            if let Some(term) = v {
                assert((world.call)(
                    name,
                    values(world, arguments, s),
                ) == Some(term));
                assert(is_boolean(term));
            }
        },
        Expr::Literal(literal) => {
            let b = literal_truth(literal)->0;
            assert(literal_value(literal) == bool_term(b));
        },
        _ => {},
    }
}

proof fn lemma_comparison(world: World, operator: Operator, left: Option<Term>, right: Option<Term>)
    requires
        regular(world),
        is_comparison(operator),
    ensures
        operated(world, operator, left, right) matches Some(term) ==> is_boolean(term),
{
}

pub open spec fn all_true(truths: Seq<Option<bool>>) -> bool {
    forall|i: int| 0 <= i < truths.len() ==> #[trigger] truths[i] == Some(true)
}

pub open spec fn any_is(truths: Seq<Option<bool>>, t: Option<bool>) -> bool {
    exists|i: int| 0 <= i < truths.len() && #[trigger] truths[i] == t
}

/// Conjunctions and disjunctions by what they contain.
pub proof fn lemma_junction(truths: Seq<Option<bool>>)
    ensures
        conjunction(truths) == if any_is(truths, Some(false)) {
            Some(false)
        } else if any_is(truths, None) {
            None
        } else {
            Some(true)
        },
        disjunction(truths) == if any_is(truths, Some(true)) {
            Some(true)
        } else if any_is(truths, None) {
            None
        } else {
            Some(false)
        },
        conjunction(truths) == Some(true) <==> all_true(truths),
{
    if any_is(truths, Some(false)) {
        let i = choose|i: int| 0 <= i < truths.len() && #[trigger] truths[i] == Some(false);
        assert(truths[i] != Some(true));
    }
    if any_is(truths, None) {
        let i = choose|i: int| 0 <= i < truths.len() && #[trigger] truths[i] == None::<bool>;
        assert(truths[i] != Some(true));
    }
    assert(any_is(truths, None) == (exists|i: int|
        0 <= i < truths.len() && (#[trigger] truths[i]) is None)) by {
        if any_is(truths, None) {
            let i = choose|i: int| 0 <= i < truths.len() && #[trigger] truths[i] == None::<bool>;
            assert(truths[i] is None);
        }
        if exists|i: int| 0 <= i < truths.len() && (#[trigger] truths[i]) is None {
            let i = choose|i: int| 0 <= i < truths.len() && (#[trigger] truths[i]) is None;
            assert(truths[i] == None::<bool>);
        }
    }
    if !any_is(truths, Some(false)) && !any_is(truths, None) {
        assert forall|i: int| 0 <= i < truths.len() implies #[trigger] truths[i] == Some(true) by {
            if truths[i] == Some(false) {
                assert(any_is(truths, Some(false)));
            }
            if truths[i] is None {
                assert(truths[i] == None::<bool>);
                assert(any_is(truths, None));
            }
        }
    }
}

proof fn lemma_junction_concat(a: Seq<Option<bool>>, b: Seq<Option<bool>>)
    ensures
        conjunction(a + b) == conjunction(seq![conjunction(a), conjunction(b)]),
        disjunction(a + b) == disjunction(seq![disjunction(a), disjunction(b)]),
{
    let c = seq![conjunction(a), conjunction(b)];
    let d = seq![disjunction(a), disjunction(b)];
    lemma_junction(a);
    lemma_junction(b);
    lemma_junction(a + b);
    lemma_junction(c);
    lemma_junction(d);
    lemma_any_concat(a, b);
    assert forall|t: Option<bool>| #[trigger] any_is(c, t) == (c[0] == t || c[1] == t) by {
        if c[0] == t {
            assert(any_is(c, t));
        }
        if c[1] == t {
            assert(any_is(c, t));
        }
    }
    assert forall|t: Option<bool>| #[trigger] any_is(d, t) == (d[0] == t || d[1] == t) by {
        if d[0] == t {
            assert(any_is(d, t));
        }
        if d[1] == t {
            assert(any_is(d, t));
        }
    }
}

proof fn lemma_any_concat(a: Seq<Option<bool>>, b: Seq<Option<bool>>)
    ensures
        forall|t: Option<bool>| #[trigger] any_is(a + b, t) == (any_is(a, t) || any_is(b, t)),
{
    let all = a + b;
    assert forall|t: Option<bool>| #[trigger] any_is(all, t) == (any_is(a, t) || any_is(b, t)) by {
        if any_is(all, t) {
            let i = choose|i: int| 0 <= i < all.len() && #[trigger] all[i] == t;
            if i < a.len() {
                assert(a[i] == t);
            } else {
                assert(b[i - a.len()] == t);
            }
        }
        if any_is(a, t) {
            let i = choose|i: int| 0 <= i < a.len() && #[trigger] a[i] == t;
            assert(all[i] == t);
        }
        if any_is(b, t) {
            let i = choose|i: int| 0 <= i < b.len() && #[trigger] b[i] == t;
            assert(all[a.len() + i] == t);
        }
    }
}

proof fn lemma_truths_concat(world: World, a: Seq<Expr>, b: Seq<Expr>, s: Solution)
    ensures
        truths(world, a + b, s) == truths(world, a, s) + truths(world, b, s),
{
    assert(truths(world, a + b, s) =~= truths(world, a, s) + truths(world, b, s));
}

/// Flattening keeps the truth of a conjunction.
proof fn lemma_all_conjuncts(world: World, expressions: Seq<Expr>, s: Solution)
    ensures
        conjunction(truths(world, all_conjuncts(expressions), s)) == conjunction(
            truths(world, expressions, s),
        ),
    decreases expressions.len(),
{
    let all = truths(world, expressions, s);
    if expressions.len() == 0 {
        assert(truths(world, all_conjuncts(expressions), s) =~= all);
    } else {
        let shorter = expressions.drop_last();
        let last = expressions.last();
        lemma_all_conjuncts(world, shorter, s);
        let (a, b) = (truths(world, all_conjuncts(shorter), s), truths(world, conjuncts(last), s));
        lemma_truths_concat(world, all_conjuncts(shorter), conjuncts(last), s);
        lemma_junction_concat(a, b);
        let t = truth_of(world, value(world, last, s));
        let one = seq![t];
        assert(all =~= truths(world, shorter, s) + one);
        lemma_junction_concat(truths(world, shorter, s), one);
        lemma_known(world, last, s);
        lemma_one(t);
        assert(conjunction(b) == conjunction(one)) by {
            if known_truth(last) == Some(true) {
                assert(b =~= seq![]);
                lemma_junction(b);
                lemma_junction(one);
            } else {
                match last {
                    Expr::And(inner) => {
                        assert(b == truths(world, inner, s));
                        lemma_bool_value_truth(world, conjunction(b));
                    },
                    _ => {
                        assert(conjuncts(last) == seq![last]);
                        assert(b =~= one);
                    },
                }
            }
        }
    }
}

/// A conjunction or disjunction of one.
proof fn lemma_one(t: Option<bool>)
    ensures
        conjunction(seq![t]) == t,
        disjunction(seq![t]) == t,
{
    let one = seq![t];
    lemma_junction(one);
    assert(one[0] == t);
    assert(any_is(one, t));
    assert forall|x: Option<bool>| #[trigger] any_is(one, x) implies x == t by {
        let i = choose|i: int| 0 <= i < one.len() && #[trigger] one[i] == x;
    }
}

/// The conjunction that is built has the value of the plain one.
pub proof fn lemma_and_all(
    world: World,
    expressions: Seq<Expr>,
    s: Solution,
)
    requires
        regular(world),
        all_proper_exprs(expressions),
    ensures
        value(world, and_all(expressions), s) == value(world, Expr::And(expressions), s),
{
    let all = truths(world, expressions, s);
    lemma_junction(all);
    lemma_known(world, truth(true), s);
    if exists|i: int|
        0 <= i < expressions.len() && known_truth(#[trigger] expressions[i]) == Some(false) {
        let i = choose|i: int|
            0 <= i < expressions.len() && known_truth(#[trigger] expressions[i]) == Some(false);
        lemma_known(world, expressions[i], s);
        assert(all[i] == Some(false));
    } else {
        lemma_all_conjuncts(world, expressions, s);
        let flat = all_conjuncts(expressions);
        let t = truths(world, flat, s);
        if flat.len() == 0 {
            lemma_junction(t);
        } else if flat.len() == 1 && returns_boolean(flat[0]) {
            assert(t =~= seq![truth_of(world, value(world, flat[0], s))]);
            lemma_one(truth_of(world, value(world, flat[0], s)));
            lemma_conjuncts_proper(expressions);
            assert(proper_expr(flat[0]));
            lemma_returns_boolean(world, flat[0], s);
        }
    }
}

pub proof fn lemma_conjuncts_proper(expressions: Seq<Expr>)
    requires
        all_proper_exprs(expressions),
    ensures
        all_proper_exprs(all_conjuncts(expressions)),
        all_proper_exprs(all_disjuncts(expressions)),
    decreases expressions.len(),
{
    if expressions.len() > 0 {
        let shorter = expressions.drop_last();
        let last = expressions.last();
        assert(all_proper_exprs(shorter)) by {
            assert forall|i: int| 0 <= i < shorter.len() implies proper_expr(
                #[trigger] shorter[i],
            ) by {
                assert(proper_expr(expressions[i]));
            }
        }
        lemma_conjuncts_proper(shorter);
        assert(proper_expr(expressions[expressions.len() - 1]));
        let (a, b) = (all_conjuncts(shorter), conjuncts(last));
        let (c, d) = (all_disjuncts(shorter), disjuncts(last));
        assert(all_proper_exprs(b));
        assert(all_proper_exprs(d));
        assert forall|i: int| 0 <= i < (a + b).len() implies proper_expr(
            #[trigger] (a + b)[i],
        ) by {
            if i < a.len() {
                assert(proper_expr(a[i]));
            } else {
                assert(proper_expr(b[i - a.len()]));
            }
        }
        assert forall|i: int| 0 <= i < (c + d).len() implies proper_expr(
            #[trigger] (c + d)[i],
        ) by {
            if i < c.len() {
                assert(proper_expr(c[i]));
            } else {
                assert(proper_expr(d[i - c.len()]));
            }
        }
    }
}

proof fn lemma_all_disjuncts(world: World, expressions: Seq<Expr>, s: Solution)
    ensures
        disjunction(truths(world, all_disjuncts(expressions), s)) == disjunction(
            truths(world, expressions, s),
        ),
    decreases expressions.len(),
{
    let all = truths(world, expressions, s);
    if expressions.len() == 0 {
        assert(truths(world, all_disjuncts(expressions), s) =~= all);
    } else {
        let shorter = expressions.drop_last();
        let last = expressions.last();
        lemma_all_disjuncts(world, shorter, s);
        let (a, b) = (truths(world, all_disjuncts(shorter), s), truths(world, disjuncts(last), s));
        lemma_truths_concat(world, all_disjuncts(shorter), disjuncts(last), s);
        lemma_junction_concat(a, b);
        let t = truth_of(world, value(world, last, s));
        let one = seq![t];
        assert(all =~= truths(world, shorter, s) + one);
        lemma_junction_concat(truths(world, shorter, s), one);
        lemma_known(world, last, s);
        lemma_one(t);
        assert(disjunction(b) == disjunction(one)) by {
            if known_truth(last) == Some(false) {
                assert(b =~= seq![]);
                lemma_junction(b);
                lemma_junction(one);
            } else {
                match last {
                    Expr::Or(inner) => {
                        assert(b == truths(world, inner, s));
                        lemma_bool_value_truth(world, disjunction(b));
                    },
                    _ => {
                        assert(disjuncts(last) == seq![last]);
                        assert(b =~= one);
                    },
                }
            }
        }
    }
}

/// The disjunction that is built has the value of the plain one.
pub proof fn lemma_or_all(
    world: World,
    expressions: Seq<Expr>,
    s: Solution,
)
    requires
        regular(world),
        all_proper_exprs(expressions),
    ensures
        value(world, or_all(expressions), s) == value(world, Expr::Or(expressions), s),
{
    let all = truths(world, expressions, s);
    lemma_junction(all);
    lemma_known(world, truth(true), s);
    if exists|i: int|
        0 <= i < expressions.len() && known_truth(#[trigger] expressions[i]) == Some(true) {
        let i = choose|i: int|
            0 <= i < expressions.len() && known_truth(#[trigger] expressions[i]) == Some(true);
        lemma_known(world, expressions[i], s);
        assert(all[i] == Some(true));
    } else {
        lemma_all_disjuncts(world, expressions, s);
        let flat = all_disjuncts(expressions);
        let t = truths(world, flat, s);
        if flat.len() == 0 {
            lemma_junction(t);
        } else if flat.len() == 1 && returns_boolean(flat[0]) {
            assert(t =~= seq![truth_of(world, value(world, flat[0], s))]);
            lemma_one(truth_of(world, value(world, flat[0], s)));
            lemma_conjuncts_proper(expressions);
            assert(proper_expr(flat[0]));
            lemma_returns_boolean(world, flat[0], s);
        }
    }
}

/// A conjunction holds where all its parts hold.
pub proof fn lemma_and_holds(world: World, expressions: Seq<Expr>, s: Solution)
    ensures
        holds(world, Expr::And(expressions), s) <==> forall|i: int|
            0 <= i < expressions.len() ==> holds(world, #[trigger] expressions[i], s),
{
    let all = truths(world, expressions, s);
    lemma_junction(all);
    lemma_bool_value_truth(world, conjunction(all));
    if all_true(all) {
        assert forall|i: int| 0 <= i < expressions.len() implies holds(
            world,
            #[trigger] expressions[i],
            s,
        ) by {
            assert(all[i] == Some(true));
        }
    }
    if forall|i: int| 0 <= i < expressions.len() ==> holds(world, #[trigger] expressions[i], s) {
        assert forall|i: int| 0 <= i < all.len() implies #[trigger] all[i] == Some(true) by {
            assert(holds(world, expressions[i], s));
        }
    }
}

/// The truth of a built conjunction.
proof fn lemma_and_all_truth(world: World, expressions: Seq<Expr>, s: Solution)
    ensures
        truth_of(world, value(world, and_all(expressions), s)) == conjunction(
            truths(world, expressions, s),
        ),
{
    let all = truths(world, expressions, s);
    lemma_known(world, truth(true), s);
    if exists|i: int|
        0 <= i < expressions.len() && known_truth(#[trigger] expressions[i]) == Some(false) {
        let i = choose|i: int|
            0 <= i < expressions.len() && known_truth(#[trigger] expressions[i]) == Some(false);
        lemma_known(world, expressions[i], s);
        assert(all[i] == Some(false));
        assert(and_all(expressions) == truth(false));
    } else {
        lemma_all_conjuncts(world, expressions, s);
        let flat = all_conjuncts(expressions);
        let t = truths(world, flat, s);
        if flat.len() == 0 {
            lemma_junction(t);
            assert(and_all(expressions) == truth(true));
        } else if flat.len() == 1 && returns_boolean(flat[0]) {
            assert(t =~= seq![truth_of(world, value(world, flat[0], s))]);
            lemma_one(truth_of(world, value(world, flat[0], s)));
            assert(and_all(expressions) == flat[0]);
        } else {
            assert(and_all(expressions) == Expr::And(flat));
            lemma_bool_value_truth(world, conjunction(t));
        }
    }
}

/// A built conjunction holds where all its parts hold.
pub proof fn lemma_and_all_holds(world: World, expressions: Seq<Expr>, s: Solution)
    ensures
        holds(world, and_all(expressions), s) <==> forall|i: int|
            0 <= i < expressions.len() ==> holds(world, #[trigger] expressions[i], s),
{
    lemma_and_holds(world, expressions, s);
    lemma_and_all_truth(world, expressions, s);
    lemma_bool_value_truth(world, conjunction(truths(world, expressions, s)));
}

/// A conjunction of one expression holds where the expression holds.
pub proof fn lemma_without_singleton(world: World, expression: Expr, s: Solution)
    ensures
        holds(world, without_singleton_and(expression), s) == holds(world, expression, s),
{
    if let Expr::And(inner) = expression {
        if inner.len() == 1 {
            lemma_and_holds(world, inner, s);
            assert(holds(world, inner[0], s) == holds(world, inner[0], s));
        }
    }
}

pub proof fn lemma_not(world: World, expression: Expr, s: Solution)
    requires
        regular(world),
        proper_expr(expression),
    ensures
        value(world, not(expression), s) == value(world, Expr::Not(Box::new(expression)), s),
{
    lemma_known(world, expression, s);
    match known_truth(expression) {
        Some(b) => {},
        None => {
            if let Expr::Not(inner) = expression {
                let t = truth_of(world, value(world, *inner, s));
                lemma_bool_value_truth(world, Some(true));
                lemma_bool_value_truth(world, Some(false));
                if returns_boolean(*inner) {
                    lemma_returns_boolean(world, *inner, s);
                } else {
                    assert(truths(world, seq![*inner], s) =~= seq![t]);
                    lemma_one(t);
                }
            }
        },
    }
}

pub proof fn lemma_equal(world: World, left: Expr, right: Expr, s: Solution)
    requires
        regular(world),
        never_nan(left) || never_nan(right),
    ensures
        value(world, equal(left, right), s) == value(
            world,
            Expr::Equal(Box::new(left), Box::new(right)),
            s,
        ),
{
    lemma_known(world, truth(true), s);
    match (left, right) {
        (Expr::NamedNode(l), Expr::NamedNode(r)) => {
            assert(value(world, left, s) == Some(Term::NamedNode(l)));
            assert(value(world, right, s) == Some(Term::NamedNode(r)));
            assert((world.equals)(Term::NamedNode(l), Term::NamedNode(r)) == Some(
                Term::NamedNode(l) == Term::NamedNode(r),
            ));
        },
        (Expr::Literal(l), Expr::Literal(r)) => {
            if l == r {
                lemma_bool_truth(world, true);
                lemma_bool_truth(world, false);
                assert(!is_nan(l));
                assert(value(world, left, s) == Some(literal_value(l)));
                assert((world.equals)(literal_value(l), literal_value(l)) == Some(true));
            }
        },
        _ => {},
    }
}

pub proof fn lemma_same_term(world: World, left: Expr, right: Expr, s: Solution)
    ensures
        value(world, same_term(left, right), s) == value(
            world,
            Expr::SameTerm(Box::new(left), Box::new(right)),
            s,
        ),
{
    lemma_known(world, truth(true), s);
    match (left, right) {
        (Expr::NamedNode(l), Expr::NamedNode(r)) => {
            assert(value(world, left, s) == Some(Term::NamedNode(l)));
            assert(value(world, right, s) == Some(Term::NamedNode(r)));
        },
        (Expr::Literal(l), Expr::Literal(r)) => {
            assert(value(world, left, s) == Some(literal_value(l)));
            assert(value(world, right, s) == Some(literal_value(r)));
        },
        _ => {},
    }
}

pub proof fn lemma_if(
    world: World,
    condition: Expr,
    then_case: Expr,
    else_case: Expr,
    s: Solution,
)
    ensures
        value(world, if_cond(condition, then_case, else_case), s) == value(
            world,
            Expr::If(Box::new(condition), Box::new(then_case), Box::new(else_case)),
            s,
        ),
{
    lemma_known(world, condition, s);
}

} // verus!
