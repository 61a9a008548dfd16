//! A code of numbers for every plan: different plans have different codes.
//!
//! A code is written behind what is there already. What was written last tells
//! what came before it, so that two codes can only agree part by part.

use vstd::prelude::*;

use crate::algebra::{
    aggregates_view, exprs_view, iris, orders_view, plans_view, row_view, rows_view, AggregateExpr,
    AggregateExpression, AggregateFunction, AggregateFunctionView, Expr, Expression, Function,
    FunctionView, GraphPattern, JoinAlgorithm, LeftJoinAlgorithm, MinusAlgorithm, OrderExpr,
    OrderExpression, PathExpr, Plan, PropertyPathExpression, Row,
};
use crate::term::{
    graph_name_view, names, GroundTerm, GroundTermPattern, GroundTermView, Literal, LiteralView,
    NamedNode, NamedNodePattern, NodePatternView, TermPatternView, Variable,
};

verus! {

/// What two codes end with, and what comes before.
proof fn lemma_pushed(s: Seq<int>, x: int, t: Seq<int>, y: int)
    requires
        s.push(x) == t.push(y),
    ensures
        s == t,
        x == y,
{
    assert(s.push(x).last() == x && t.push(y).last() == y);
    assert(s =~= s.push(x).drop_last());
    assert(t =~= t.push(y).drop_last());
}

/// The code of a text: its characters, and how many there are.
pub open spec fn text_code(text: Seq<char>, before: Seq<int>) -> Seq<int> {
    (before + text.map_values(|c: char| c as int)).push(text.len() as int)
}

proof fn lemma_text_code(a: Seq<char>, b: Seq<char>, s: Seq<int>, t: Seq<int>)
    requires
        text_code(a, s) == text_code(b, t),
    ensures
        a == b,
        s == t,
{
    let f = |c: char| c as int;
    let (x, y) = (s + a.map_values(f), t + b.map_values(f));
    lemma_pushed(x, a.len() as int, y, b.len() as int);
    assert(x.len() == s.len() + a.len() && y.len() == t.len() + b.len());
    assert(s =~= x.take(s.len() as int) && t =~= y.take(t.len() as int));
    assert forall|i: int| 0 <= i < a.len() implies a[i] == b[i] by {
        assert(x[s.len() + i] == f(a[i]) && y[t.len() + i] == f(b[i]));
    }
    assert(a =~= b);
}

/// The code of the first of some texts.
pub open spec fn texts_code(texts: Seq<Seq<char>>, count: int, before: Seq<int>) -> Seq<int>
    decreases count,
{
    if count <= 0 {
        before
    } else {
        text_code(texts[count - 1], texts_code(texts, count - 1, before))
    }
}

proof fn lemma_texts_code(
    a: Seq<Seq<char>>,
    b: Seq<Seq<char>>,
    count: int,
    s: Seq<int>,
    t: Seq<int>,
)
    requires
        texts_code(a, count, s) == texts_code(b, count, t),
    ensures
        s == t,
        forall|i: int| 0 <= i < count ==> a[i] == b[i],
    decreases count,
{
    if count > 0 {
        let (x, y) = (texts_code(a, count - 1, s), texts_code(b, count - 1, t));
        lemma_text_code(a[count - 1], b[count - 1], x, y);
        lemma_texts_code(a, b, count - 1, s, t);
    }
}

/// The code of some texts, and of how many there are.
pub open spec fn list_code(texts: Seq<Seq<char>>, before: Seq<int>) -> Seq<int> {
    texts_code(texts, texts.len() as int, before).push(texts.len() as int)
}

proof fn lemma_list_code(a: Seq<Seq<char>>, b: Seq<Seq<char>>, s: Seq<int>, t: Seq<int>)
    requires
        list_code(a, s) == list_code(b, t),
    ensures
        a == b,
        s == t,
{
    let (x, y) = (
        texts_code(a, a.len() as int, s),
        texts_code(b, b.len() as int, t),
    );
    lemma_pushed(x, a.len() as int, y, b.len() as int);
    lemma_texts_code(a, b, a.len() as int, s, t);
    assert(a =~= b);
}

/// The code of a text that may be missing.
pub open spec fn optional_text_code(text: Option<Seq<char>>, before: Seq<int>) -> Seq<int> {
    match text {
        Some(text) => text_code(text, before).push(1),
        None => before.push(0),
    }
}

proof fn lemma_optional_text_code(
    a: Option<Seq<char>>,
    b: Option<Seq<char>>,
    s: Seq<int>,
    t: Seq<int>,
)
    requires
        optional_text_code(a, s) == optional_text_code(b, t),
    ensures
        a == b,
        s == t,
{
    let x = if let Some(text) = a { text_code(text, s) } else { s };
    let y = if let Some(text) = b { text_code(text, t) } else { t };
    lemma_pushed(x, if a is Some { 1int } else { 0 }, y, if b is Some { 1int } else { 0 });
    if let (Some(m), Some(n)) = (a, b) {
        lemma_text_code(m, n, s, t);
    }
}

pub open spec fn literal_code(literal: LiteralView, before: Seq<int>) -> Seq<int> {
    optional_text_code(
        literal.language,
        text_code(literal.datatype, text_code(literal.value, before)),
    )
}

proof fn lemma_literal_code(a: LiteralView, b: LiteralView, s: Seq<int>, t: Seq<int>)
    requires
        literal_code(a, s) == literal_code(b, t),
    ensures
        a == b,
        s == t,
{
    let (x, y) = (text_code(a.value, s), text_code(b.value, t));
    lemma_optional_text_code(
        a.language,
        b.language,
        text_code(a.datatype, x),
        text_code(b.datatype, y),
    );
    lemma_text_code(a.datatype, b.datatype, x, y);
    lemma_text_code(a.value, b.value, s, t);
}

pub open spec fn node_code(node: NodePatternView, before: Seq<int>) -> Seq<int> {
    match node {
        NodePatternView::NamedNode(iri) => text_code(iri, before).push(0),
        NodePatternView::Variable(name) => text_code(name, before).push(1),
    }
}

proof fn lemma_node_code(a: NodePatternView, b: NodePatternView, s: Seq<int>, t: Seq<int>)
    requires
        node_code(a, s) == node_code(b, t),
    ensures
        a == b,
        s == t,
{
    let m = match a {
        NodePatternView::NamedNode(x) | NodePatternView::Variable(x) => x,
    };
    let n = match b {
        NodePatternView::NamedNode(x) | NodePatternView::Variable(x) => x,
    };
    let i = if a is NamedNode { 0int } else { 1 };
    let j = if b is NamedNode { 0int } else { 1 };
    lemma_pushed(text_code(m, s), i, text_code(n, t), j);
    lemma_text_code(m, n, s, t);
}

pub open spec fn optional_node_code(node: Option<NodePatternView>, before: Seq<int>) -> Seq<int> {
    match node {
        Some(node) => node_code(node, before).push(1),
        None => before.push(0),
    }
}

proof fn lemma_optional_node_code(
    a: Option<NodePatternView>,
    b: Option<NodePatternView>,
    s: Seq<int>,
    t: Seq<int>,
)
    requires
        optional_node_code(a, s) == optional_node_code(b, t),
    ensures
        a == b,
        s == t,
{
    let x = if let Some(node) = a { node_code(node, s) } else { s };
    let y = if let Some(node) = b { node_code(node, t) } else { t };
    lemma_pushed(x, if a is Some { 1int } else { 0 }, y, if b is Some { 1int } else { 0 });
    if let (Some(m), Some(n)) = (a, b) {
        lemma_node_code(m, n, s, t);
    }
}

pub open spec fn bool_code(value: bool, before: Seq<int>) -> Seq<int> {
    before.push(if value { 1 } else { 0 })
}

proof fn lemma_bool_code(a: bool, b: bool, s: Seq<int>, t: Seq<int>)
    requires
        bool_code(a, s) == bool_code(b, t),
    ensures
        a == b,
        s == t,
{
    lemma_pushed(s, if a { 1 } else { 0 }, t, if b { 1 } else { 0 });
}

pub open spec fn number_code(value: usize, before: Seq<int>) -> Seq<int> {
    before.push(value as int)
}

proof fn lemma_number_code(a: usize, b: usize, s: Seq<int>, t: Seq<int>)
    requires
        number_code(a, s) == number_code(b, t),
    ensures
        a == b,
        s == t,
{
    lemma_pushed(s, a as int, t, b as int);
}

pub open spec fn optional_number_code(value: Option<usize>, before: Seq<int>) -> Seq<int> {
    match value {
        Some(value) => number_code(value, before).push(1),
        None => before.push(0),
    }
}

proof fn lemma_optional_number_code(a: Option<usize>, b: Option<usize>, s: Seq<int>, t: Seq<int>)
    requires
        optional_number_code(a, s) == optional_number_code(b, t),
    ensures
        a == b,
        s == t,
{
    let x = if let Some(value) = a { number_code(value, s) } else { s };
    let y = if let Some(value) = b { number_code(value, t) } else { t };
    lemma_pushed(x, if a is Some { 1int } else { 0 }, y, if b is Some { 1int } else { 0 });
    if let (Some(m), Some(n)) = (a, b) {
        lemma_number_code(m, n, s, t);
    }
}

/// The code of a ground term.
pub open spec fn ground_code(term: GroundTermView, before: Seq<int>) -> Seq<int>
    decreases term, 1int,
{
    ground_body(term, before).push(ground_tag(term))
}

pub open spec fn ground_body(term: GroundTermView, before: Seq<int>) -> Seq<int>
    decreases term, 0int,
{
    match term {
        GroundTermView::NamedNode(iri) => text_code(iri, before),
        GroundTermView::Literal(literal) => literal_code(literal, before),
        GroundTermView::Triple { subject, predicate, object } => ground_code(*object, text_code(predicate, text_code(
            subject,
            before,
        ))),
    }
}

pub open spec fn ground_tag(term: GroundTermView) -> int {
    match term {
        GroundTermView::NamedNode(_) => 0,
        GroundTermView::Literal(_) => 1,
        GroundTermView::Triple { .. } => 2,
    }
}

#[verifier::spinoff_prover]
proof fn lemma_ground_code(a: GroundTermView, b: GroundTermView, s: Seq<int>, t: Seq<int>)
    requires
        ground_code(a, s) == ground_code(b, t),
    ensures
        a == b,
        s == t,
    decreases a, 1int,
{
    lemma_pushed(ground_body(a, s), ground_tag(a), ground_body(b, t), ground_tag(b));
    match a {
        GroundTermView::NamedNode(iri1) => {
            if let GroundTermView::NamedNode(iri2) = b {
                lemma_text_code(iri1, iri2, s, t);
            }
        },
        GroundTermView::Literal(literal1) => {
            if let GroundTermView::Literal(literal2) = b {
                lemma_literal_code(literal1, literal2, s, t);
            }
        },
        GroundTermView::Triple { subject: subject1, predicate: predicate1, object: object1 } => {
            if let GroundTermView::Triple { subject: subject2, predicate: predicate2, object: object2 } = b {
                lemma_ground_code(*object1, *object2, text_code(predicate1, text_code(subject1, s)), text_code(predicate2, text_code(
                    subject2,
                    t,
                )));
                lemma_text_code(predicate1, predicate2, text_code(subject1, s), text_code(
                    subject2,
                    t,
                ));
                lemma_text_code(subject1, subject2, s, t);
            }
        },
    }
}

/// The code of a cell of a table.
pub open spec fn cell_code(cell: Option<GroundTermView>, before: Seq<int>) -> Seq<int> {
    match cell {
        Some(term) => ground_code(term, before).push(1),
        None => before.push(0),
    }
}

proof fn lemma_cell_code(
    a: Option<GroundTermView>,
    b: Option<GroundTermView>,
    s: Seq<int>,
    t: Seq<int>,
)
    requires
        cell_code(a, s) == cell_code(b, t),
    ensures
        a == b,
        s == t,
{
    let x = if let Some(term) = a { ground_code(term, s) } else { s };
    let y = if let Some(term) = b { ground_code(term, t) } else { t };
    lemma_pushed(x, if a is Some { 1int } else { 0 }, y, if b is Some { 1int } else { 0 });
    if let (Some(m), Some(n)) = (a, b) {
        lemma_ground_code(m, n, s, t);
    }
}

/// The code of a row of a table.
pub open spec fn row_code(items: Seq<Option<GroundTermView>>, before: Seq<int>) -> Seq<int>
    decreases items, items.len() as int + 1,
{
    row_upto(items, items.len() as int, before).push(items.len() as int)
}

pub open spec fn row_upto(items: Seq<Option<GroundTermView>>, count: int, before: Seq<int>) -> Seq<int>
    decreases items, count,
{
    if 0 < count <= items.len() {
        cell_code(items[count - 1], row_upto(items, count - 1, before))
    } else {
        before
    }
}

proof fn lemma_row_code(
    a: Seq<Option<GroundTermView>>,
    b: Seq<Option<GroundTermView>>,
    s: Seq<int>,
    t: Seq<int>,
)
    requires
        row_code(a, s) == row_code(b, t),
    ensures
        a == b,
        s == t,
    decreases a, a.len() as int + 1,
{
    let n = a.len() as int;
    lemma_pushed(row_upto(a, n, s), n, row_upto(b, b.len() as int, t), b.len() as int);
    lemma_row_upto(a, b, n, s, t);
    assert(a =~= b);
}

proof fn lemma_row_upto(
    a: Seq<Option<GroundTermView>>,
    b: Seq<Option<GroundTermView>>,
    count: int,
    s: Seq<int>,
    t: Seq<int>,
)
    requires
        0 <= count <= a.len(),
        a.len() == b.len(),
        row_upto(a, count, s) == row_upto(b, count, t),
    ensures
        s == t,
        forall|i: int| 0 <= i < count ==> a[i] == b[i],
    decreases a, count,
{
    if count > 0 {
        let (x, y) = (row_upto(a, count - 1, s), row_upto(b, count - 1, t));
        lemma_cell_code(a[count - 1], b[count - 1], x, y);
        lemma_row_upto(a, b, count - 1, s, t);
    }
}

/// The code of the rows of a table.
pub open spec fn rows_code(items: Seq<Row>, before: Seq<int>) -> Seq<int>
    decreases items, items.len() as int + 1,
{
    rows_upto(items, items.len() as int, before).push(items.len() as int)
}

pub open spec fn rows_upto(items: Seq<Row>, count: int, before: Seq<int>) -> Seq<int>
    decreases items, count,
{
    if 0 < count <= items.len() {
        row_code(items[count - 1], rows_upto(items, count - 1, before))
    } else {
        before
    }
}

proof fn lemma_rows_code(a: Seq<Row>, b: Seq<Row>, s: Seq<int>, t: Seq<int>)
    requires
        rows_code(a, s) == rows_code(b, t),
    ensures
        a == b,
        s == t,
    decreases a, a.len() as int + 1,
{
    let n = a.len() as int;
    lemma_pushed(rows_upto(a, n, s), n, rows_upto(b, b.len() as int, t), b.len() as int);
    lemma_rows_upto(a, b, n, s, t);
    assert(a =~= b);
}

proof fn lemma_rows_upto(a: Seq<Row>, b: Seq<Row>, count: int, s: Seq<int>, t: Seq<int>)
    requires
        0 <= count <= a.len(),
        a.len() == b.len(),
        rows_upto(a, count, s) == rows_upto(b, count, t),
    ensures
        s == t,
        forall|i: int| 0 <= i < count ==> a[i] == b[i],
    decreases a, count,
{
    if count > 0 {
        let (x, y) = (rows_upto(a, count - 1, s), rows_upto(b, count - 1, t));
        lemma_row_code(a[count - 1], b[count - 1], x, y);
        lemma_rows_upto(a, b, count - 1, s, t);
    }
}

/// The code of a term pattern.
pub open spec fn term_code(pattern: TermPatternView, before: Seq<int>) -> Seq<int>
    decreases pattern, 1int,
{
    term_body(pattern, before).push(term_tag(pattern))
}

pub open spec fn term_body(pattern: TermPatternView, before: Seq<int>) -> Seq<int>
    decreases pattern, 0int,
{
    match pattern {
        TermPatternView::NamedNode(iri) => text_code(iri, before),
        TermPatternView::Literal(literal) => literal_code(literal, before),
        TermPatternView::Variable(name) => text_code(name, before),
        TermPatternView::Triple { subject, predicate, object } => term_code(*object, node_code(predicate, term_code(
            *subject,
            before,
        ))),
    }
}

pub open spec fn term_tag(pattern: TermPatternView) -> int {
    match pattern {
        TermPatternView::NamedNode(_) => 0,
        TermPatternView::Literal(_) => 1,
        TermPatternView::Variable(_) => 2,
        TermPatternView::Triple { .. } => 3,
    }
}

#[verifier::spinoff_prover]
proof fn lemma_term_code(a: TermPatternView, b: TermPatternView, s: Seq<int>, t: Seq<int>)
    requires
        term_code(a, s) == term_code(b, t),
    ensures
        a == b,
        s == t,
    decreases a, 1int,
{
    lemma_pushed(term_body(a, s), term_tag(a), term_body(b, t), term_tag(b));
    match a {
        TermPatternView::NamedNode(iri1) => {
            if let TermPatternView::NamedNode(iri2) = b {
                lemma_text_code(iri1, iri2, s, t);
            }
        },
        TermPatternView::Literal(literal1) => {
            if let TermPatternView::Literal(literal2) = b {
                lemma_literal_code(literal1, literal2, s, t);
            }
        },
        TermPatternView::Variable(name1) => {
            if let TermPatternView::Variable(name2) = b {
                lemma_text_code(name1, name2, s, t);
            }
        },
        TermPatternView::Triple { subject: subject1, predicate: predicate1, object: object1 } => {
            if let TermPatternView::Triple { subject: subject2, predicate: predicate2, object: object2 } = b {
                lemma_term_code(*object1, *object2, node_code(predicate1, term_code(*subject1, s)), node_code(predicate2, term_code(
                    *subject2,
                    t,
                )));
                lemma_node_code(predicate1, predicate2, term_code(*subject1, s), term_code(
                    *subject2,
                    t,
                ));
                lemma_term_code(*subject1, *subject2, s, t);
            }
        },
    }
}

/// The code of a property path.
pub open spec fn path_code(path: PathExpr, before: Seq<int>) -> Seq<int>
    decreases path, 1int,
{
    path_body(path, before).push(path_tag(path))
}

pub open spec fn path_body(path: PathExpr, before: Seq<int>) -> Seq<int>
    decreases path, 0int,
{
    match path {
        PathExpr::NamedNode(iri) => text_code(iri, before),
        PathExpr::Reverse(inner) => path_code(*inner, before),
        PathExpr::Sequence(left, right) => path_code(*right, path_code(*left, before)),
        PathExpr::Alternative(left, right) => path_code(*right, path_code(*left, before)),
        PathExpr::ZeroOrMore(inner) => path_code(*inner, before),
        PathExpr::OneOrMore(inner) => path_code(*inner, before),
        PathExpr::ZeroOrOne(inner) => path_code(*inner, before),
        PathExpr::NegatedPropertySet(nodes) => list_code(nodes, before),
    }
}

pub open spec fn path_tag(path: PathExpr) -> int {
    match path {
        PathExpr::NamedNode(_) => 0,
        PathExpr::Reverse(_) => 1,
        PathExpr::Sequence(_, _) => 2,
        PathExpr::Alternative(_, _) => 3,
        PathExpr::ZeroOrMore(_) => 4,
        PathExpr::OneOrMore(_) => 5,
        PathExpr::ZeroOrOne(_) => 6,
        PathExpr::NegatedPropertySet(_) => 7,
    }
}

#[verifier::spinoff_prover]
proof fn lemma_path_code(a: PathExpr, b: PathExpr, s: Seq<int>, t: Seq<int>)
    requires
        path_code(a, s) == path_code(b, t),
    ensures
        a == b,
        s == t,
    decreases a, 1int,
{
    lemma_pushed(path_body(a, s), path_tag(a), path_body(b, t), path_tag(b));
    match a {
        PathExpr::NamedNode(iri1) => {
            if let PathExpr::NamedNode(iri2) = b {
                lemma_text_code(iri1, iri2, s, t);
            }
        },
        PathExpr::Reverse(inner1) => {
            if let PathExpr::Reverse(inner2) = b {
                lemma_path_code(*inner1, *inner2, s, t);
            }
        },
        PathExpr::Sequence(left1, right1) => {
            if let PathExpr::Sequence(left2, right2) = b {
                lemma_path_code(*right1, *right2, path_code(*left1, s), path_code(*left2, t));
                lemma_path_code(*left1, *left2, s, t);
            }
        },
        PathExpr::Alternative(left1, right1) => {
            if let PathExpr::Alternative(left2, right2) = b {
                lemma_path_code(*right1, *right2, path_code(*left1, s), path_code(*left2, t));
                lemma_path_code(*left1, *left2, s, t);
            }
        },
        PathExpr::ZeroOrMore(inner1) => {
            if let PathExpr::ZeroOrMore(inner2) = b {
                lemma_path_code(*inner1, *inner2, s, t);
            }
        },
        PathExpr::OneOrMore(inner1) => {
            if let PathExpr::OneOrMore(inner2) = b {
                lemma_path_code(*inner1, *inner2, s, t);
            }
        },
        PathExpr::ZeroOrOne(inner1) => {
            if let PathExpr::ZeroOrOne(inner2) = b {
                lemma_path_code(*inner1, *inner2, s, t);
            }
        },
        PathExpr::NegatedPropertySet(nodes1) => {
            if let PathExpr::NegatedPropertySet(nodes2) = b {
                lemma_list_code(nodes1, nodes2, s, t);
            }
        },
    }
}

/// The code of a function.
pub open spec fn function_code(name: FunctionView, before: Seq<int>) -> Seq<int>
    decreases name, 1int,
{
    function_body(name, before).push(function_tag(name))
}

pub open spec fn function_body(name: FunctionView, before: Seq<int>) -> Seq<int>
    decreases name, 0int,
{
    match name {
        FunctionView::Str => before,
        FunctionView::Lang => before,
        FunctionView::LangMatches => before,
        FunctionView::Datatype => before,
        FunctionView::Iri => before,
        FunctionView::BNode => before,
        FunctionView::Rand => before,
        FunctionView::Abs => before,
        FunctionView::Ceil => before,
        FunctionView::Floor => before,
        FunctionView::Round => before,
        FunctionView::Concat => before,
        FunctionView::SubStr => before,
        FunctionView::StrLen => before,
        FunctionView::Replace => before,
        FunctionView::UCase => before,
        FunctionView::LCase => before,
        FunctionView::EncodeForUri => before,
        FunctionView::Contains => before,
        FunctionView::StrStarts => before,
        FunctionView::StrEnds => before,
        FunctionView::StrBefore => before,
        FunctionView::StrAfter => before,
        FunctionView::Year => before,
        FunctionView::Month => before,
        FunctionView::Day => before,
        FunctionView::Hours => before,
        FunctionView::Minutes => before,
        FunctionView::Seconds => before,
        FunctionView::Timezone => before,
        FunctionView::Tz => before,
        FunctionView::Now => before,
        FunctionView::Uuid => before,
        FunctionView::StrUuid => before,
        FunctionView::Md5 => before,
        FunctionView::Sha1 => before,
        FunctionView::Sha256 => before,
        FunctionView::Sha384 => before,
        FunctionView::Sha512 => before,
        FunctionView::StrLang => before,
        FunctionView::StrDt => before,
        FunctionView::IsIri => before,
        FunctionView::IsBlank => before,
        FunctionView::IsLiteral => before,
        FunctionView::IsNumeric => before,
        FunctionView::Regex => before,
        FunctionView::Triple => before,
        FunctionView::Subject => before,
        FunctionView::Predicate => before,
        FunctionView::Object => before,
        FunctionView::IsTriple => before,
        FunctionView::LangDir => before,
        FunctionView::HasLang => before,
        FunctionView::HasLangDir => before,
        FunctionView::StrLangDir => before,
        FunctionView::Custom(iri) => text_code(iri, before),
    }
}

pub open spec fn function_tag(name: FunctionView) -> int {
    match name {
        FunctionView::Str => 0,
        FunctionView::Lang => 1,
        FunctionView::LangMatches => 2,
        FunctionView::Datatype => 3,
        FunctionView::Iri => 4,
        FunctionView::BNode => 5,
        FunctionView::Rand => 6,
        FunctionView::Abs => 7,
        FunctionView::Ceil => 8,
        FunctionView::Floor => 9,
        FunctionView::Round => 10,
        FunctionView::Concat => 11,
        FunctionView::SubStr => 12,
        FunctionView::StrLen => 13,
        FunctionView::Replace => 14,
        FunctionView::UCase => 15,
        FunctionView::LCase => 16,
        FunctionView::EncodeForUri => 17,
        FunctionView::Contains => 18,
        FunctionView::StrStarts => 19,
        FunctionView::StrEnds => 20,
        FunctionView::StrBefore => 21,
        FunctionView::StrAfter => 22,
        FunctionView::Year => 23,
        FunctionView::Month => 24,
        FunctionView::Day => 25,
        FunctionView::Hours => 26,
        FunctionView::Minutes => 27,
        FunctionView::Seconds => 28,
        FunctionView::Timezone => 29,
        FunctionView::Tz => 30,
        FunctionView::Now => 31,
        FunctionView::Uuid => 32,
        FunctionView::StrUuid => 33,
        FunctionView::Md5 => 34,
        FunctionView::Sha1 => 35,
        FunctionView::Sha256 => 36,
        FunctionView::Sha384 => 37,
        FunctionView::Sha512 => 38,
        FunctionView::StrLang => 39,
        FunctionView::StrDt => 40,
        FunctionView::IsIri => 41,
        FunctionView::IsBlank => 42,
        FunctionView::IsLiteral => 43,
        FunctionView::IsNumeric => 44,
        FunctionView::Regex => 45,
        FunctionView::Triple => 46,
        FunctionView::Subject => 47,
        FunctionView::Predicate => 48,
        FunctionView::Object => 49,
        FunctionView::IsTriple => 50,
        FunctionView::LangDir => 51,
        FunctionView::HasLang => 52,
        FunctionView::HasLangDir => 53,
        FunctionView::StrLangDir => 54,
        FunctionView::Custom(_) => 55,
    }
}

#[verifier::spinoff_prover]
proof fn lemma_function_code(a: FunctionView, b: FunctionView, s: Seq<int>, t: Seq<int>)
    requires
        function_code(a, s) == function_code(b, t),
    ensures
        a == b,
        s == t,
    decreases a, 1int,
{
    lemma_pushed(function_body(a, s), function_tag(a), function_body(b, t), function_tag(b));
    match a {
        FunctionView::Custom(iri1) => {
            if let FunctionView::Custom(iri2) = b {
                lemma_text_code(iri1, iri2, s, t);
            }
        },
        _ => {},
    }
}

/// The code of an aggregate function.
pub open spec fn aggregate_function_code(name: AggregateFunctionView, before: Seq<int>) -> Seq<int>
    decreases name, 1int,
{
    aggregate_function_body(name, before).push(aggregate_function_tag(name))
}

pub open spec fn aggregate_function_body(name: AggregateFunctionView, before: Seq<int>) -> Seq<int>
    decreases name, 0int,
{
    match name {
        AggregateFunctionView::Count => before,
        AggregateFunctionView::Sum => before,
        AggregateFunctionView::Avg => before,
        AggregateFunctionView::Min => before,
        AggregateFunctionView::Max => before,
        AggregateFunctionView::GroupConcat { separator } => optional_text_code(separator, before),
        AggregateFunctionView::Sample => before,
        AggregateFunctionView::Custom(iri) => text_code(iri, before),
    }
}

pub open spec fn aggregate_function_tag(name: AggregateFunctionView) -> int {
    match name {
        AggregateFunctionView::Count => 0,
        AggregateFunctionView::Sum => 1,
        AggregateFunctionView::Avg => 2,
        AggregateFunctionView::Min => 3,
        AggregateFunctionView::Max => 4,
        AggregateFunctionView::GroupConcat { .. } => 5,
        AggregateFunctionView::Sample => 6,
        AggregateFunctionView::Custom(_) => 7,
    }
}

#[verifier::spinoff_prover]
proof fn lemma_aggregate_function_code(
    a: AggregateFunctionView,
    b: AggregateFunctionView,
    s: Seq<int>,
    t: Seq<int>,
)
    requires
        aggregate_function_code(a, s) == aggregate_function_code(b, t),
    ensures
        a == b,
        s == t,
    decreases a, 1int,
{
    lemma_pushed(aggregate_function_body(a, s), aggregate_function_tag(a), aggregate_function_body(b, t), aggregate_function_tag(b));
    match a {
        AggregateFunctionView::GroupConcat { separator: separator1 } => {
            if let AggregateFunctionView::GroupConcat { separator: separator2 } = b {
                lemma_optional_text_code(separator1, separator2, s, t);
            }
        },
        AggregateFunctionView::Custom(iri1) => {
            if let AggregateFunctionView::Custom(iri2) = b {
                lemma_text_code(iri1, iri2, s, t);
            }
        },
        _ => {},
    }
}

/// The code of an expression.
pub open spec fn expr_code(expression: Expr, before: Seq<int>) -> Seq<int>
    decreases expression, 1int,
{
    expr_body(expression, before).push(expr_tag(expression))
}

pub open spec fn expr_body(expression: Expr, before: Seq<int>) -> Seq<int>
    decreases expression, 0int,
{
    match expression {
        Expr::NamedNode(iri) => text_code(iri, before),
        Expr::Literal(literal) => literal_code(literal, before),
        Expr::Variable(name) => text_code(name, before),
        Expr::Or(inner) => exprs_code(inner, before),
        Expr::And(inner) => exprs_code(inner, before),
        Expr::Equal(left, right) => expr_code(*right, expr_code(*left, before)),
        Expr::SameTerm(left, right) => expr_code(*right, expr_code(*left, before)),
        Expr::Greater(left, right) => expr_code(*right, expr_code(*left, before)),
        Expr::GreaterOrEqual(left, right) => expr_code(*right, expr_code(*left, before)),
        Expr::Less(left, right) => expr_code(*right, expr_code(*left, before)),
        Expr::LessOrEqual(left, right) => expr_code(*right, expr_code(*left, before)),
        Expr::Add(left, right) => expr_code(*right, expr_code(*left, before)),
        Expr::Subtract(left, right) => expr_code(*right, expr_code(*left, before)),
        Expr::Multiply(left, right) => expr_code(*right, expr_code(*left, before)),
        Expr::Divide(left, right) => expr_code(*right, expr_code(*left, before)),
        Expr::UnaryPlus(inner) => expr_code(*inner, before),
        Expr::UnaryMinus(inner) => expr_code(*inner, before),
        Expr::Not(inner) => expr_code(*inner, before),
        Expr::Exists(inner) => plan_code(*inner, before),
        Expr::Bound(name) => text_code(name, before),
        Expr::If(condition, then_case, else_case) => expr_code(*else_case, expr_code(*then_case, expr_code(
            *condition,
            before,
        ))),
        Expr::Coalesce(inner) => exprs_code(inner, before),
        Expr::FunctionCall(name, arguments) => exprs_code(arguments, function_code(name, before)),
    }
}

pub open spec fn expr_tag(expression: Expr) -> int {
    match expression {
        Expr::NamedNode(_) => 0,
        Expr::Literal(_) => 1,
        Expr::Variable(_) => 2,
        Expr::Or(_) => 3,
        Expr::And(_) => 4,
        Expr::Equal(_, _) => 5,
        Expr::SameTerm(_, _) => 6,
        Expr::Greater(_, _) => 7,
        Expr::GreaterOrEqual(_, _) => 8,
        Expr::Less(_, _) => 9,
        Expr::LessOrEqual(_, _) => 10,
        Expr::Add(_, _) => 11,
        Expr::Subtract(_, _) => 12,
        Expr::Multiply(_, _) => 13,
        Expr::Divide(_, _) => 14,
        Expr::UnaryPlus(_) => 15,
        Expr::UnaryMinus(_) => 16,
        Expr::Not(_) => 17,
        Expr::Exists(_) => 18,
        Expr::Bound(_) => 19,
        Expr::If(_, _, _) => 20,
        Expr::Coalesce(_) => 21,
        Expr::FunctionCall(_, _) => 22,
    }
}

#[verifier::spinoff_prover]
proof fn lemma_expr_code(a: Expr, b: Expr, s: Seq<int>, t: Seq<int>)
    requires
        expr_code(a, s) == expr_code(b, t),
    ensures
        a == b,
        s == t,
    decreases a, 1int,
{
    lemma_pushed(expr_body(a, s), expr_tag(a), expr_body(b, t), expr_tag(b));
    match a {
        Expr::NamedNode(iri1) => {
            if let Expr::NamedNode(iri2) = b {
                lemma_text_code(iri1, iri2, s, t);
            }
        },
        Expr::Literal(literal1) => {
            if let Expr::Literal(literal2) = b {
                lemma_literal_code(literal1, literal2, s, t);
            }
        },
        Expr::Variable(name1) => {
            if let Expr::Variable(name2) = b {
                lemma_text_code(name1, name2, s, t);
            }
        },
        Expr::Or(inner1) => {
            if let Expr::Or(inner2) = b {
                lemma_exprs_code(inner1, inner2, s, t);
            }
        },
        Expr::And(inner1) => {
            if let Expr::And(inner2) = b {
                lemma_exprs_code(inner1, inner2, s, t);
            }
        },
        Expr::Equal(left1, right1) => {
            if let Expr::Equal(left2, right2) = b {
                lemma_expr_code(*right1, *right2, expr_code(*left1, s), expr_code(*left2, t));
                lemma_expr_code(*left1, *left2, s, t);
            }
        },
        Expr::SameTerm(left1, right1) => {
            if let Expr::SameTerm(left2, right2) = b {
                lemma_expr_code(*right1, *right2, expr_code(*left1, s), expr_code(*left2, t));
                lemma_expr_code(*left1, *left2, s, t);
            }
        },
        Expr::Greater(left1, right1) => {
            if let Expr::Greater(left2, right2) = b {
                lemma_expr_code(*right1, *right2, expr_code(*left1, s), expr_code(*left2, t));
                lemma_expr_code(*left1, *left2, s, t);
            }
        },
        Expr::GreaterOrEqual(left1, right1) => {
            if let Expr::GreaterOrEqual(left2, right2) = b {
                lemma_expr_code(*right1, *right2, expr_code(*left1, s), expr_code(*left2, t));
                lemma_expr_code(*left1, *left2, s, t);
            }
        },
        Expr::Less(left1, right1) => {
            if let Expr::Less(left2, right2) = b {
                lemma_expr_code(*right1, *right2, expr_code(*left1, s), expr_code(*left2, t));
                lemma_expr_code(*left1, *left2, s, t);
            }
        },
        Expr::LessOrEqual(left1, right1) => {
            if let Expr::LessOrEqual(left2, right2) = b {
                lemma_expr_code(*right1, *right2, expr_code(*left1, s), expr_code(*left2, t));
                lemma_expr_code(*left1, *left2, s, t);
            }
        },
        Expr::Add(left1, right1) => {
            if let Expr::Add(left2, right2) = b {
                lemma_expr_code(*right1, *right2, expr_code(*left1, s), expr_code(*left2, t));
                lemma_expr_code(*left1, *left2, s, t);
            }
        },
        Expr::Subtract(left1, right1) => {
            if let Expr::Subtract(left2, right2) = b {
                lemma_expr_code(*right1, *right2, expr_code(*left1, s), expr_code(*left2, t));
                lemma_expr_code(*left1, *left2, s, t);
            }
        },
        Expr::Multiply(left1, right1) => {
            if let Expr::Multiply(left2, right2) = b {
                lemma_expr_code(*right1, *right2, expr_code(*left1, s), expr_code(*left2, t));
                lemma_expr_code(*left1, *left2, s, t);
            }
        },
        Expr::Divide(left1, right1) => {
            if let Expr::Divide(left2, right2) = b {
                lemma_expr_code(*right1, *right2, expr_code(*left1, s), expr_code(*left2, t));
                lemma_expr_code(*left1, *left2, s, t);
            }
        },
        Expr::UnaryPlus(inner1) => {
            if let Expr::UnaryPlus(inner2) = b {
                lemma_expr_code(*inner1, *inner2, s, t);
            }
        },
        Expr::UnaryMinus(inner1) => {
            if let Expr::UnaryMinus(inner2) = b {
                lemma_expr_code(*inner1, *inner2, s, t);
            }
        },
        Expr::Not(inner1) => {
            if let Expr::Not(inner2) = b {
                lemma_expr_code(*inner1, *inner2, s, t);
            }
        },
        Expr::Exists(inner1) => {
            if let Expr::Exists(inner2) = b {
                lemma_plan_code(*inner1, *inner2, s, t);
            }
        },
        Expr::Bound(name1) => {
            if let Expr::Bound(name2) = b {
                lemma_text_code(name1, name2, s, t);
            }
        },
        Expr::If(condition1, then_case1, else_case1) => {
            if let Expr::If(condition2, then_case2, else_case2) = b {
                lemma_expr_code(*else_case1, *else_case2, expr_code(*then_case1, expr_code(*condition1, s)), expr_code(*then_case2, expr_code(
                    *condition2,
                    t,
                )));
                lemma_expr_code(*then_case1, *then_case2, expr_code(*condition1, s), expr_code(
                    *condition2,
                    t,
                ));
                lemma_expr_code(*condition1, *condition2, s, t);
            }
        },
        Expr::Coalesce(inner1) => {
            if let Expr::Coalesce(inner2) = b {
                lemma_exprs_code(inner1, inner2, s, t);
            }
        },
        Expr::FunctionCall(name1, arguments1) => {
            if let Expr::FunctionCall(name2, arguments2) = b {
                lemma_exprs_code(arguments1, arguments2, function_code(name1, s), function_code(
                    name2,
                    t,
                ));
                lemma_function_code(name1, name2, s, t);
            }
        },
    }
}

/// The code of some expressions.
pub open spec fn exprs_code(items: Seq<Expr>, before: Seq<int>) -> Seq<int>
    decreases items, items.len() as int + 1,
{
    exprs_upto(items, items.len() as int, before).push(items.len() as int)
}

pub open spec fn exprs_upto(items: Seq<Expr>, count: int, before: Seq<int>) -> Seq<int>
    decreases items, count,
{
    if 0 < count <= items.len() {
        expr_code(items[count - 1], exprs_upto(items, count - 1, before))
    } else {
        before
    }
}

proof fn lemma_exprs_code(a: Seq<Expr>, b: Seq<Expr>, s: Seq<int>, t: Seq<int>)
    requires
        exprs_code(a, s) == exprs_code(b, t),
    ensures
        a == b,
        s == t,
    decreases a, a.len() as int + 1,
{
    let n = a.len() as int;
    lemma_pushed(exprs_upto(a, n, s), n, exprs_upto(b, b.len() as int, t), b.len() as int);
    lemma_exprs_upto(a, b, n, s, t);
    assert(a =~= b);
}

proof fn lemma_exprs_upto(a: Seq<Expr>, b: Seq<Expr>, count: int, s: Seq<int>, t: Seq<int>)
    requires
        0 <= count <= a.len(),
        a.len() == b.len(),
        exprs_upto(a, count, s) == exprs_upto(b, count, t),
    ensures
        s == t,
        forall|i: int| 0 <= i < count ==> a[i] == b[i],
    decreases a, count,
{
    if count > 0 {
        let (x, y) = (exprs_upto(a, count - 1, s), exprs_upto(b, count - 1, t));
        lemma_expr_code(a[count - 1], b[count - 1], x, y);
        lemma_exprs_upto(a, b, count - 1, s, t);
    }
}

/// The code of a sort criterion.
pub open spec fn order_code(criterion: OrderExpr, before: Seq<int>) -> Seq<int>
    decreases criterion, 1int,
{
    order_body(criterion, before).push(order_tag(criterion))
}

pub open spec fn order_body(criterion: OrderExpr, before: Seq<int>) -> Seq<int>
    decreases criterion, 0int,
{
    match criterion {
        OrderExpr::Asc(expression) => expr_code(expression, before),
        OrderExpr::Desc(expression) => expr_code(expression, before),
    }
}

pub open spec fn order_tag(criterion: OrderExpr) -> int {
    match criterion {
        OrderExpr::Asc(_) => 0,
        OrderExpr::Desc(_) => 1,
    }
}

#[verifier::spinoff_prover]
proof fn lemma_order_code(a: OrderExpr, b: OrderExpr, s: Seq<int>, t: Seq<int>)
    requires
        order_code(a, s) == order_code(b, t),
    ensures
        a == b,
        s == t,
    decreases a, 1int,
{
    lemma_pushed(order_body(a, s), order_tag(a), order_body(b, t), order_tag(b));
    match a {
        OrderExpr::Asc(expression1) => {
            if let OrderExpr::Asc(expression2) = b {
                lemma_expr_code(expression1, expression2, s, t);
            }
        },
        OrderExpr::Desc(expression1) => {
            if let OrderExpr::Desc(expression2) = b {
                lemma_expr_code(expression1, expression2, s, t);
            }
        },
    }
}

/// The code of some sort criteria.
pub open spec fn orders_code(items: Seq<OrderExpr>, before: Seq<int>) -> Seq<int>
    decreases items, items.len() as int + 1,
{
    orders_upto(items, items.len() as int, before).push(items.len() as int)
}

pub open spec fn orders_upto(items: Seq<OrderExpr>, count: int, before: Seq<int>) -> Seq<int>
    decreases items, count,
{
    if 0 < count <= items.len() {
        order_code(items[count - 1], orders_upto(items, count - 1, before))
    } else {
        before
    }
}

proof fn lemma_orders_code(a: Seq<OrderExpr>, b: Seq<OrderExpr>, s: Seq<int>, t: Seq<int>)
    requires
        orders_code(a, s) == orders_code(b, t),
    ensures
        a == b,
        s == t,
    decreases a, a.len() as int + 1,
{
    let n = a.len() as int;
    lemma_pushed(orders_upto(a, n, s), n, orders_upto(b, b.len() as int, t), b.len() as int);
    lemma_orders_upto(a, b, n, s, t);
    assert(a =~= b);
}

proof fn lemma_orders_upto(
    a: Seq<OrderExpr>,
    b: Seq<OrderExpr>,
    count: int,
    s: Seq<int>,
    t: Seq<int>,
)
    requires
        0 <= count <= a.len(),
        a.len() == b.len(),
        orders_upto(a, count, s) == orders_upto(b, count, t),
    ensures
        s == t,
        forall|i: int| 0 <= i < count ==> a[i] == b[i],
    decreases a, count,
{
    if count > 0 {
        let (x, y) = (orders_upto(a, count - 1, s), orders_upto(b, count - 1, t));
        lemma_order_code(a[count - 1], b[count - 1], x, y);
        lemma_orders_upto(a, b, count - 1, s, t);
    }
}

/// The code of an aggregate.
pub open spec fn aggregate_code(aggregate: AggregateExpr, before: Seq<int>) -> Seq<int>
    decreases aggregate, 1int,
{
    aggregate_body(aggregate, before).push(aggregate_tag(aggregate))
}

pub open spec fn aggregate_body(aggregate: AggregateExpr, before: Seq<int>) -> Seq<int>
    decreases aggregate, 0int,
{
    match aggregate {
        AggregateExpr::CountSolutions { distinct } => bool_code(distinct, before),
        AggregateExpr::FunctionCall { name, expr, distinct } => bool_code(distinct, expr_code(*expr, aggregate_function_code(
            name,
            before,
        ))),
    }
}

pub open spec fn aggregate_tag(aggregate: AggregateExpr) -> int {
    match aggregate {
        AggregateExpr::CountSolutions { .. } => 0,
        AggregateExpr::FunctionCall { .. } => 1,
    }
}

#[verifier::spinoff_prover]
proof fn lemma_aggregate_code(a: AggregateExpr, b: AggregateExpr, s: Seq<int>, t: Seq<int>)
    requires
        aggregate_code(a, s) == aggregate_code(b, t),
    ensures
        a == b,
        s == t,
    decreases a, 1int,
{
    lemma_pushed(aggregate_body(a, s), aggregate_tag(a), aggregate_body(b, t), aggregate_tag(b));
    match a {
        AggregateExpr::CountSolutions { distinct: distinct1 } => {
            if let AggregateExpr::CountSolutions { distinct: distinct2 } = b {
                lemma_bool_code(distinct1, distinct2, s, t);
            }
        },
        AggregateExpr::FunctionCall { name: name1, expr: expr1, distinct: distinct1 } => {
            if let AggregateExpr::FunctionCall { name: name2, expr: expr2, distinct: distinct2 } = b {
                lemma_bool_code(distinct1, distinct2, expr_code(*expr1, aggregate_function_code(name1, s)), expr_code(*expr2, aggregate_function_code(
                    name2,
                    t,
                )));
                lemma_expr_code(*expr1, *expr2, aggregate_function_code(name1, s), aggregate_function_code(
                    name2,
                    t,
                ));
                lemma_aggregate_function_code(name1, name2, s, t);
            }
        },
    }
}

/// The code of some named aggregates.
pub open spec fn aggregates_code(items: Seq<(Seq<char>, AggregateExpr)>, before: Seq<int>) -> Seq<int>
    decreases items, items.len() as int + 1,
{
    aggregates_upto(items, items.len() as int, before).push(items.len() as int)
}

pub open spec fn aggregates_upto(items: Seq<(Seq<char>, AggregateExpr)>, count: int, before: Seq<int>) -> Seq<int>
    decreases items, count,
{
    if 0 < count <= items.len() {
        aggregate_code(items[count - 1].1, text_code(items[count - 1].0, aggregates_upto(
            items,
            count - 1,
            before,
        )))
    } else {
        before
    }
}

proof fn lemma_aggregates_code(
    a: Seq<(Seq<char>, AggregateExpr)>,
    b: Seq<(Seq<char>, AggregateExpr)>,
    s: Seq<int>,
    t: Seq<int>,
)
    requires
        aggregates_code(a, s) == aggregates_code(b, t),
    ensures
        a == b,
        s == t,
    decreases a, a.len() as int + 1,
{
    let n = a.len() as int;
    lemma_pushed(
        aggregates_upto(a, n, s),
        n,
        aggregates_upto(b, b.len() as int, t),
        b.len() as int,
    );
    lemma_aggregates_upto(a, b, n, s, t);
    assert(a =~= b);
}

proof fn lemma_aggregates_upto(
    a: Seq<(Seq<char>, AggregateExpr)>,
    b: Seq<(Seq<char>, AggregateExpr)>,
    count: int,
    s: Seq<int>,
    t: Seq<int>,
)
    requires
        0 <= count <= a.len(),
        a.len() == b.len(),
        aggregates_upto(a, count, s) == aggregates_upto(b, count, t),
    ensures
        s == t,
        forall|i: int| 0 <= i < count ==> a[i] == b[i],
    decreases a, count,
{
    if count > 0 {
        let (x, y) = (aggregates_upto(a, count - 1, s), aggregates_upto(b, count - 1, t));
        let (m, n) = (a[count - 1], b[count - 1]);
        assert(decreases_to!(m => m.1));
        lemma_aggregate_code(m.1, n.1, text_code(m.0, x), text_code(n.0, y));
        lemma_text_code(m.0, n.0, x, y);
        lemma_aggregates_upto(a, b, count - 1, s, t);
    }
}

/// The code of a plan.
pub open spec fn plan_code(plan: Plan, before: Seq<int>) -> Seq<int>
    decreases plan, 1int,
{
    plan_body(plan, before).push(plan_tag(plan))
}

pub open spec fn plan_body(plan: Plan, before: Seq<int>) -> Seq<int>
    decreases plan, 0int,
{
    match plan {
        Plan::QuadPattern { subject, predicate, object, graph_name } => optional_node_code(graph_name, term_code(object, node_code(predicate, term_code(
            subject,
            before,
        )))),
        Plan::Path { subject, path, object, graph_name } => optional_node_code(graph_name, term_code(object, path_code(path, term_code(
            subject,
            before,
        )))),
        Plan::Graph { graph_name } => node_code(graph_name, before),
        Plan::Join { left, right, keys } => list_code(keys, plan_code(*right, plan_code(
            *left,
            before,
        ))),
        Plan::LeftJoin { left, right, expression, keys } => list_code(keys, expr_code(expression, plan_code(*right, plan_code(
            *left,
            before,
        )))),
        Plan::Lateral { left, right } => plan_code(*right, plan_code(*left, before)),
        Plan::Filter { expression, inner } => plan_code(*inner, expr_code(expression, before)),
        Plan::Extend { inner, variable, expression } => expr_code(expression, text_code(variable, plan_code(
            *inner,
            before,
        ))),
        Plan::Minus { left, right, keys } => list_code(keys, plan_code(*right, plan_code(
            *left,
            before,
        ))),
        Plan::Values { variables, bindings } => rows_code(bindings, list_code(variables, before)),
        Plan::OrderBy { inner, expression } => orders_code(expression, plan_code(*inner, before)),
        Plan::Project { inner, variables } => list_code(variables, plan_code(*inner, before)),
        Plan::Distinct { inner } => plan_code(*inner, before),
        Plan::Reduced { inner } => plan_code(*inner, before),
        Plan::Slice { inner, start, length } => optional_number_code(length, number_code(start, plan_code(
            *inner,
            before,
        ))),
        Plan::Group { inner, variables, aggregates } => aggregates_code(aggregates, list_code(variables, plan_code(
            *inner,
            before,
        ))),
        Plan::Service { name, inner, silent } => bool_code(silent, plan_code(*inner, node_code(
            name,
            before,
        ))),
        Plan::Union { inner } => plans_code(inner, before),
    }
}

pub open spec fn plan_tag(plan: Plan) -> int {
    match plan {
        Plan::QuadPattern { .. } => 0,
        Plan::Path { .. } => 1,
        Plan::Graph { .. } => 2,
        Plan::Join { .. } => 3,
        Plan::LeftJoin { .. } => 4,
        Plan::Lateral { .. } => 5,
        Plan::Filter { .. } => 6,
        Plan::Extend { .. } => 7,
        Plan::Minus { .. } => 8,
        Plan::Values { .. } => 9,
        Plan::OrderBy { .. } => 10,
        Plan::Project { .. } => 11,
        Plan::Distinct { .. } => 12,
        Plan::Reduced { .. } => 13,
        Plan::Slice { .. } => 14,
        Plan::Group { .. } => 15,
        Plan::Service { .. } => 16,
        Plan::Union { .. } => 17,
    }
}

#[verifier::spinoff_prover]
proof fn lemma_plan_code(a: Plan, b: Plan, s: Seq<int>, t: Seq<int>)
    requires
        plan_code(a, s) == plan_code(b, t),
    ensures
        a == b,
        s == t,
    decreases a, 1int,
{
    lemma_pushed(plan_body(a, s), plan_tag(a), plan_body(b, t), plan_tag(b));
    match a {
        Plan::QuadPattern { subject: subject1, predicate: predicate1, object: object1, graph_name: graph_name1 } => {
            if let Plan::QuadPattern { subject: subject2, predicate: predicate2, object: object2, graph_name: graph_name2 } = b {
                lemma_optional_node_code(graph_name1, graph_name2, term_code(object1, node_code(predicate1, term_code(subject1, s))), term_code(object2, node_code(predicate2, term_code(
                    subject2,
                    t,
                ))));
                lemma_term_code(object1, object2, node_code(predicate1, term_code(subject1, s)), node_code(predicate2, term_code(
                    subject2,
                    t,
                )));
                lemma_node_code(predicate1, predicate2, term_code(subject1, s), term_code(
                    subject2,
                    t,
                ));
                lemma_term_code(subject1, subject2, s, t);
            }
        },
        Plan::Path { subject: subject1, path: path1, object: object1, graph_name: graph_name1 } => {
            if let Plan::Path { subject: subject2, path: path2, object: object2, graph_name: graph_name2 } = b {
                lemma_optional_node_code(graph_name1, graph_name2, term_code(object1, path_code(path1, term_code(subject1, s))), term_code(object2, path_code(path2, term_code(
                    subject2,
                    t,
                ))));
                lemma_term_code(object1, object2, path_code(path1, term_code(subject1, s)), path_code(path2, term_code(
                    subject2,
                    t,
                )));
                lemma_path_code(path1, path2, term_code(subject1, s), term_code(subject2, t));
                lemma_term_code(subject1, subject2, s, t);
            }
        },
        Plan::Graph { graph_name: graph_name1 } => {
            if let Plan::Graph { graph_name: graph_name2 } = b {
                lemma_node_code(graph_name1, graph_name2, s, t);
            }
        },
        Plan::Join { left: left1, right: right1, keys: keys1 } => {
            if let Plan::Join { left: left2, right: right2, keys: keys2 } = b {
                lemma_list_code(keys1, keys2, plan_code(*right1, plan_code(*left1, s)), plan_code(*right2, plan_code(
                    *left2,
                    t,
                )));
                lemma_plan_code(*right1, *right2, plan_code(*left1, s), plan_code(*left2, t));
                lemma_plan_code(*left1, *left2, s, t);
            }
        },
        Plan::LeftJoin { left: left1, right: right1, expression: expression1, keys: keys1 } => {
            if let Plan::LeftJoin { left: left2, right: right2, expression: expression2, keys: keys2 } = b {
                lemma_list_code(keys1, keys2, expr_code(expression1, plan_code(*right1, plan_code(*left1, s))), expr_code(expression2, plan_code(*right2, plan_code(
                    *left2,
                    t,
                ))));
                lemma_expr_code(expression1, expression2, plan_code(*right1, plan_code(*left1, s)), plan_code(*right2, plan_code(
                    *left2,
                    t,
                )));
                lemma_plan_code(*right1, *right2, plan_code(*left1, s), plan_code(*left2, t));
                lemma_plan_code(*left1, *left2, s, t);
            }
        },
        Plan::Lateral { left: left1, right: right1 } => {
            if let Plan::Lateral { left: left2, right: right2 } = b {
                lemma_plan_code(*right1, *right2, plan_code(*left1, s), plan_code(*left2, t));
                lemma_plan_code(*left1, *left2, s, t);
            }
        },
        Plan::Filter { expression: expression1, inner: inner1 } => {
            if let Plan::Filter { expression: expression2, inner: inner2 } = b {
                lemma_plan_code(*inner1, *inner2, expr_code(expression1, s), expr_code(
                    expression2,
                    t,
                ));
                lemma_expr_code(expression1, expression2, s, t);
            }
        },
        Plan::Extend { inner: inner1, variable: variable1, expression: expression1 } => {
            if let Plan::Extend { inner: inner2, variable: variable2, expression: expression2 } = b {
                lemma_expr_code(expression1, expression2, text_code(variable1, plan_code(*inner1, s)), text_code(variable2, plan_code(
                    *inner2,
                    t,
                )));
                lemma_text_code(variable1, variable2, plan_code(*inner1, s), plan_code(*inner2, t));
                lemma_plan_code(*inner1, *inner2, s, t);
            }
        },
        Plan::Minus { left: left1, right: right1, keys: keys1 } => {
            if let Plan::Minus { left: left2, right: right2, keys: keys2 } = b {
                lemma_list_code(keys1, keys2, plan_code(*right1, plan_code(*left1, s)), plan_code(*right2, plan_code(
                    *left2,
                    t,
                )));
                lemma_plan_code(*right1, *right2, plan_code(*left1, s), plan_code(*left2, t));
                lemma_plan_code(*left1, *left2, s, t);
            }
        },
        Plan::Values { variables: variables1, bindings: bindings1 } => {
            if let Plan::Values { variables: variables2, bindings: bindings2 } = b {
                lemma_rows_code(bindings1, bindings2, list_code(variables1, s), list_code(
                    variables2,
                    t,
                ));
                lemma_list_code(variables1, variables2, s, t);
            }
        },
        Plan::OrderBy { inner: inner1, expression: expression1 } => {
            if let Plan::OrderBy { inner: inner2, expression: expression2 } = b {
                lemma_orders_code(expression1, expression2, plan_code(*inner1, s), plan_code(
                    *inner2,
                    t,
                ));
                lemma_plan_code(*inner1, *inner2, s, t);
            }
        },
        Plan::Project { inner: inner1, variables: variables1 } => {
            if let Plan::Project { inner: inner2, variables: variables2 } = b {
                lemma_list_code(variables1, variables2, plan_code(*inner1, s), plan_code(
                    *inner2,
                    t,
                ));
                lemma_plan_code(*inner1, *inner2, s, t);
            }
        },
        Plan::Distinct { inner: inner1 } => {
            if let Plan::Distinct { inner: inner2 } = b {
                lemma_plan_code(*inner1, *inner2, s, t);
            }
        },
        Plan::Reduced { inner: inner1 } => {
            if let Plan::Reduced { inner: inner2 } = b {
                lemma_plan_code(*inner1, *inner2, s, t);
            }
        },
        Plan::Slice { inner: inner1, start: start1, length: length1 } => {
            if let Plan::Slice { inner: inner2, start: start2, length: length2 } = b {
                lemma_optional_number_code(length1, length2, number_code(start1, plan_code(*inner1, s)), number_code(start2, plan_code(
                    *inner2,
                    t,
                )));
                lemma_number_code(start1, start2, plan_code(*inner1, s), plan_code(*inner2, t));
                lemma_plan_code(*inner1, *inner2, s, t);
            }
        },
        Plan::Group { inner: inner1, variables: variables1, aggregates: aggregates1 } => {
            if let Plan::Group { inner: inner2, variables: variables2, aggregates: aggregates2 } = b {
                lemma_aggregates_code(aggregates1, aggregates2, list_code(variables1, plan_code(*inner1, s)), list_code(variables2, plan_code(
                    *inner2,
                    t,
                )));
                lemma_list_code(variables1, variables2, plan_code(*inner1, s), plan_code(
                    *inner2,
                    t,
                ));
                lemma_plan_code(*inner1, *inner2, s, t);
            }
        },
        Plan::Service { name: name1, inner: inner1, silent: silent1 } => {
            if let Plan::Service { name: name2, inner: inner2, silent: silent2 } = b {
                lemma_bool_code(silent1, silent2, plan_code(*inner1, node_code(name1, s)), plan_code(*inner2, node_code(
                    name2,
                    t,
                )));
                lemma_plan_code(*inner1, *inner2, node_code(name1, s), node_code(name2, t));
                lemma_node_code(name1, name2, s, t);
            }
        },
        Plan::Union { inner: inner1 } => {
            if let Plan::Union { inner: inner2 } = b {
                lemma_plans_code(inner1, inner2, s, t);
            }
        },
    }
}

/// The code of some plans.
pub open spec fn plans_code(items: Seq<Plan>, before: Seq<int>) -> Seq<int>
    decreases items, items.len() as int + 1,
{
    plans_upto(items, items.len() as int, before).push(items.len() as int)
}

pub open spec fn plans_upto(items: Seq<Plan>, count: int, before: Seq<int>) -> Seq<int>
    decreases items, count,
{
    if 0 < count <= items.len() {
        plan_code(items[count - 1], plans_upto(items, count - 1, before))
    } else {
        before
    }
}

proof fn lemma_plans_code(a: Seq<Plan>, b: Seq<Plan>, s: Seq<int>, t: Seq<int>)
    requires
        plans_code(a, s) == plans_code(b, t),
    ensures
        a == b,
        s == t,
    decreases a, a.len() as int + 1,
{
    let n = a.len() as int;
    lemma_pushed(plans_upto(a, n, s), n, plans_upto(b, b.len() as int, t), b.len() as int);
    lemma_plans_upto(a, b, n, s, t);
    assert(a =~= b);
}

proof fn lemma_plans_upto(a: Seq<Plan>, b: Seq<Plan>, count: int, s: Seq<int>, t: Seq<int>)
    requires
        0 <= count <= a.len(),
        a.len() == b.len(),
        plans_upto(a, count, s) == plans_upto(b, count, t),
    ensures
        s == t,
        forall|i: int| 0 <= i < count ==> a[i] == b[i],
    decreases a, count,
{
    if count > 0 {
        let (x, y) = (plans_upto(a, count - 1, s), plans_upto(b, count - 1, t));
        lemma_plan_code(a[count - 1], b[count - 1], x, y);
        lemma_plans_upto(a, b, count - 1, s, t);
    }
}

/// Different plans have different codes.
pub proof fn lemma_plan_codes(a: Plan, b: Plan)
    requires
        plan_code(a, seq![]) == plan_code(b, seq![]),
    ensures
        a == b,
{
    lemma_plan_code(a, b, seq![], seq![]);
}

/// The numbers that are written.
pub open spec fn ints(numbers: Seq<u64>) -> Seq<int> {
    numbers.map_values(|n: u64| n as int)
}

fn put(number: u64, out: &mut Vec<u64>)
    ensures
        ints(final(out)@) == ints(old(out)@).push(number as int),
{
    let ghost before = out@;
    out.push(number);
    assert(ints(out@) =~= ints(before).push(number as int));
}

fn write_text(text: &str, out: &mut Vec<u64>)
    ensures
        ints(final(out)@) == text_code(text@, ints(old(out)@)),
{
    let ghost before = ints(out@);
    let count: usize = text.unicode_len();
    let ghost f = |c: char| c as int;
    assert(before =~= before + text@.take(0).map_values(f));
    for i in 0..count
        invariant
            count == text@.len(),
            f == (|c: char| c as int),
            ints(out@) == before + text@.take(i as int).map_values(f),
    {
        put(text.get_char(i) as u64, out);
        assert(text@.take(i + 1) =~= text@.take(i as int).push(text@[i as int]));
        assert(ints(out@) =~= before + text@.take(i + 1).map_values(f));
    }
    assert(text@.take(count as int) =~= text@);
    put(count as u64, out);
}

fn write_optional_text(text: &Option<String>, out: &mut Vec<u64>)
    ensures
        ints(final(out)@) == optional_text_code(
            (match *text {
                Some(text) => Some(text@),
                None => None,
            }),
            ints(old(out)@),
        ),
{
    match text {
        Some(text) => {
            write_text(text.as_str(), out);
            put(1, out);
        },
        None => {
            put(0, out);
        },
    }
}

fn write_variables(variables: &Vec<Variable>, out: &mut Vec<u64>)
    ensures
        ints(final(out)@) == list_code(names(variables@), ints(old(out)@)),
{
    let ghost before = ints(out@);
    let ghost given = names(variables@);
    for i in 0..variables.len()
        invariant
            given == names(variables@),
            ints(out@) == texts_code(given, i as int, before),
    {
        write_text(variables[i].as_str(), out);
        assert(given[i as int] == variables@[i as int]@);
    }
    put(variables.len() as u64, out);
}

fn write_nodes(nodes: &Vec<NamedNode>, out: &mut Vec<u64>)
    ensures
        ints(final(out)@) == list_code(iris(nodes@), ints(old(out)@)),
{
    let ghost before = ints(out@);
    let ghost given = iris(nodes@);
    for i in 0..nodes.len()
        invariant
            given == iris(nodes@),
            ints(out@) == texts_code(given, i as int, before),
    {
        write_text(nodes[i].as_str(), out);
        assert(given[i as int] == nodes@[i as int]@);
    }
    put(nodes.len() as u64, out);
}

fn write_literal(literal: &Literal, out: &mut Vec<u64>)
    ensures
        ints(final(out)@) == literal_code(literal@, ints(old(out)@)),
{
    write_text(literal.value.as_str(), out);
    write_text(literal.datatype.as_str(), out);
    write_optional_text(&literal.language, out);
}

fn write_node(node: &NamedNodePattern, out: &mut Vec<u64>)
    ensures
        ints(final(out)@) == node_code(node@, ints(old(out)@)),
{
    match node {
        NamedNodePattern::NamedNode(node) => {
            write_text(node.as_str(), out);
            put(0, out);
        },
        NamedNodePattern::Variable(variable) => {
            write_text(variable.as_str(), out);
            put(1, out);
        },
    }
}

fn write_optional_node(node: &Option<NamedNodePattern>, out: &mut Vec<u64>)
    ensures
        ints(final(out)@) == optional_node_code(graph_name_view(*node), ints(old(out)@)),
{
    match node {
        Some(node) => {
            write_node(node, out);
            put(1, out);
        },
        None => {
            put(0, out);
        },
    }
}

fn write_bool(value: bool, out: &mut Vec<u64>)
    ensures
        ints(final(out)@) == bool_code(value, ints(old(out)@)),
{
    put(if value { 1 } else { 0 }, out);
}

fn write_optional_number(value: Option<usize>, out: &mut Vec<u64>)
    ensures
        ints(final(out)@) == optional_number_code(value, ints(old(out)@)),
{
    match value {
        Some(value) => {
            put(value as u64, out);
            put(1, out);
        },
        None => {
            put(0, out);
        },
    }
}

fn write_ground(term: &GroundTerm, out: &mut Vec<u64>)
    ensures
        ints(final(out)@) == ground_code(term@, ints(old(out)@)),
    decreases term,
{
    match term {
        GroundTerm::NamedNode(node) => {
            write_text(node.as_str(), out);
            put(0, out);
        },
        GroundTerm::Literal(literal) => {
            write_literal(literal, out);
            put(1, out);
        },
        GroundTerm::Triple(triple) => {
            write_text(triple.subject.as_str(), out);
            write_text(triple.predicate.as_str(), out);
            write_ground(&triple.object, out);
            put(2, out);
        },
    }
}

fn write_row(row: &Vec<Option<GroundTerm>>, out: &mut Vec<u64>)
    ensures
        ints(final(out)@) == row_code(row_view(*row), ints(old(out)@)),
{
    let ghost before = ints(out@);
    let ghost given = row_view(*row);
    for i in 0..row.len()
        invariant
            given == row_view(*row),
            ints(out@) == row_upto(given, i as int, before),
    {
        match &row[i] {
            Some(term) => {
                write_ground(term, out);
                put(1, out);
                assert(given[i as int] == Some(term@));
            },
            None => {
                put(0, out);
                assert(given[i as int] is None);
            },
        }
    }
    put(row.len() as u64, out);
}

fn write_rows(rows: &Vec<Vec<Option<GroundTerm>>>, out: &mut Vec<u64>)
    ensures
        ints(final(out)@) == rows_code(rows_view(rows@), ints(old(out)@)),
{
    let ghost before = ints(out@);
    let ghost given = rows_view(rows@);
    for i in 0..rows.len()
        invariant
            given == rows_view(rows@),
            ints(out@) == rows_upto(given, i as int, before),
    {
        write_row(&rows[i], out);
        assert(given[i as int] == row_view(rows@[i as int]));
    }
    put(rows.len() as u64, out);
}

fn write_term(pattern: &GroundTermPattern, out: &mut Vec<u64>)
    ensures
        ints(final(out)@) == term_code(pattern@, ints(old(out)@)),
    decreases pattern,
{
    match pattern {
        GroundTermPattern::NamedNode(node) => {
            write_text(node.as_str(), out);
            put(0, out);
        },
        GroundTermPattern::Literal(literal) => {
            write_literal(literal, out);
            put(1, out);
        },
        GroundTermPattern::Variable(variable) => {
            write_text(variable.as_str(), out);
            put(2, out);
        },
        GroundTermPattern::Triple(triple) => {
            write_term(&triple.subject, out);
            write_node(&triple.predicate, out);
            write_term(&triple.object, out);
            put(3, out);
        },
    }
}

fn write_path(path: &PropertyPathExpression, out: &mut Vec<u64>)
    ensures
        ints(final(out)@) == path_code(path@, ints(old(out)@)),
    decreases path,
{
    match path {
        PropertyPathExpression::NamedNode(node) => {
            write_text(node.as_str(), out);
            put(0, out);
        },
        PropertyPathExpression::NegatedPropertySet(nodes) => {
            write_nodes(nodes, out);
            put(7, out);
        },
        PropertyPathExpression::Reverse(inner) => {
            write_path(inner, out);
            put(1, out);
        },
        PropertyPathExpression::Sequence(left, right) => {
            write_path(left, out);
            write_path(right, out);
            put(2, out);
        },
        PropertyPathExpression::Alternative(left, right) => {
            write_path(left, out);
            write_path(right, out);
            put(3, out);
        },
        PropertyPathExpression::ZeroOrMore(inner) => {
            write_path(inner, out);
            put(4, out);
        },
        PropertyPathExpression::OneOrMore(inner) => {
            write_path(inner, out);
            put(5, out);
        },
        PropertyPathExpression::ZeroOrOne(inner) => {
            write_path(inner, out);
            put(6, out);
        },
    }
}

fn write_function(name: &Function, out: &mut Vec<u64>)
    ensures
        ints(final(out)@) == function_code(name@, ints(old(out)@)),
{
    let tag: u64 = match name {
        Function::Str => 0,
        Function::Lang => 1,
        Function::LangMatches => 2,
        Function::Datatype => 3,
        Function::Iri => 4,
        Function::BNode => 5,
        Function::Rand => 6,
        Function::Abs => 7,
        Function::Ceil => 8,
        Function::Floor => 9,
        Function::Round => 10,
        Function::Concat => 11,
        Function::SubStr => 12,
        Function::StrLen => 13,
        Function::Replace => 14,
        Function::UCase => 15,
        Function::LCase => 16,
        Function::EncodeForUri => 17,
        Function::Contains => 18,
        Function::StrStarts => 19,
        Function::StrEnds => 20,
        Function::StrBefore => 21,
        Function::StrAfter => 22,
        Function::Year => 23,
        Function::Month => 24,
        Function::Day => 25,
        Function::Hours => 26,
        Function::Minutes => 27,
        Function::Seconds => 28,
        Function::Timezone => 29,
        Function::Tz => 30,
        Function::Now => 31,
        Function::Uuid => 32,
        Function::StrUuid => 33,
        Function::Md5 => 34,
        Function::Sha1 => 35,
        Function::Sha256 => 36,
        Function::Sha384 => 37,
        Function::Sha512 => 38,
        Function::StrLang => 39,
        Function::StrDt => 40,
        Function::IsIri => 41,
        Function::IsBlank => 42,
        Function::IsLiteral => 43,
        Function::IsNumeric => 44,
        Function::Regex => 45,
        Function::Triple => 46,
        Function::Subject => 47,
        Function::Predicate => 48,
        Function::Object => 49,
        Function::IsTriple => 50,
        Function::LangDir => 51,
        Function::HasLang => 52,
        Function::HasLangDir => 53,
        Function::StrLangDir => 54,
        Function::Custom(name) => {
            write_text(name.as_str(), out);
            55
        },
    };
    put(tag, out);
}

fn write_aggregate_function(name: &AggregateFunction, out: &mut Vec<u64>)
    ensures
        ints(final(out)@) == aggregate_function_code(name@, ints(old(out)@)),
{
    let tag: u64 = match name {
        AggregateFunction::Count => 0,
        AggregateFunction::Sum => 1,
        AggregateFunction::Avg => 2,
        AggregateFunction::Min => 3,
        AggregateFunction::Max => 4,
        AggregateFunction::GroupConcat { separator } => {
            write_optional_text(separator, out);
            5
        },
        AggregateFunction::Sample => 6,
        AggregateFunction::Custom(name) => {
            write_text(name.as_str(), out);
            7
        },
    };
    put(tag, out);
}

fn write_expression(expression: &Expression, out: &mut Vec<u64>)
    ensures
        ints(final(out)@) == expr_code(expression@, ints(old(out)@)),
    decreases expression,
{
    match expression {
        Expression::NamedNode(node) => {
            write_text(node.as_str(), out);
            put(0, out);
        },
        Expression::Literal(literal) => {
            write_literal(literal, out);
            put(1, out);
        },
        Expression::Variable(variable) => {
            write_text(variable.as_str(), out);
            put(2, out);
        },
        Expression::Or(inner) => {
            write_expressions(inner, out);
            put(3, out);
        },
        Expression::And(inner) => {
            write_expressions(inner, out);
            put(4, out);
        },
        Expression::Equal(left, right) => {
            write_expression(left, out);
            write_expression(right, out);
            put(5, out);
        },
        Expression::SameTerm(left, right) => {
            write_expression(left, out);
            write_expression(right, out);
            put(6, out);
        },
        Expression::Greater(left, right) => {
            write_expression(left, out);
            write_expression(right, out);
            put(7, out);
        },
        Expression::GreaterOrEqual(left, right) => {
            write_expression(left, out);
            write_expression(right, out);
            put(8, out);
        },
        Expression::Less(left, right) => {
            write_expression(left, out);
            write_expression(right, out);
            put(9, out);
        },
        Expression::LessOrEqual(left, right) => {
            write_expression(left, out);
            write_expression(right, out);
            put(10, out);
        },
        Expression::Add(left, right) => {
            write_expression(left, out);
            write_expression(right, out);
            put(11, out);
        },
        Expression::Subtract(left, right) => {
            write_expression(left, out);
            write_expression(right, out);
            put(12, out);
        },
        Expression::Multiply(left, right) => {
            write_expression(left, out);
            write_expression(right, out);
            put(13, out);
        },
        Expression::Divide(left, right) => {
            write_expression(left, out);
            write_expression(right, out);
            put(14, out);
        },
        Expression::UnaryPlus(inner) => {
            write_expression(inner, out);
            put(15, out);
        },
        Expression::UnaryMinus(inner) => {
            write_expression(inner, out);
            put(16, out);
        },
        Expression::Not(inner) => {
            write_expression(inner, out);
            put(17, out);
        },
        Expression::Exists(inner) => {
            write_pattern(inner, out);
            put(18, out);
        },
        Expression::Bound(variable) => {
            write_text(variable.as_str(), out);
            put(19, out);
        },
        Expression::If(condition, then_case, else_case) => {
            write_expression(condition, out);
            write_expression(then_case, out);
            write_expression(else_case, out);
            put(20, out);
        },
        Expression::Coalesce(inner) => {
            write_expressions(inner, out);
            put(21, out);
        },
        Expression::FunctionCall(name, arguments) => {
            write_function(name, out);
            write_expressions(arguments, out);
            put(22, out);
        },
    }
}

fn write_expressions(items: &Vec<Expression>, out: &mut Vec<u64>)
    ensures
        ints(final(out)@) == exprs_code(exprs_view(items@), ints(old(out)@)),
    decreases items,
{
    let ghost before = ints(out@);
    let ghost given = exprs_view(items@);
    for i in 0..items.len()
        invariant
            given == exprs_view(items@),
            ints(out@) == exprs_upto(given, i as int, before),
    {
        write_expression(&items[i], out);
        assert(given[i as int] == items@[i as int]@);
    }
    put(items.len() as u64, out);
}

fn write_criteria(items: &Vec<OrderExpression>, out: &mut Vec<u64>)
    ensures
        ints(final(out)@) == orders_code(orders_view(items@), ints(old(out)@)),
    decreases items,
{
    let ghost before = ints(out@);
    let ghost given = orders_view(items@);
    for i in 0..items.len()
        invariant
            given == orders_view(items@),
            ints(out@) == orders_upto(given, i as int, before),
    {
        write_criterion(&items[i], out);
        assert(given[i as int] == items@[i as int]@);
    }
    put(items.len() as u64, out);
}

fn write_criterion(criterion: &OrderExpression, out: &mut Vec<u64>)
    ensures
        ints(final(out)@) == order_code(criterion@, ints(old(out)@)),
    decreases criterion,
{
    match criterion {
        OrderExpression::Asc(expression) => {
            write_expression(expression, out);
            put(0, out);
        },
        OrderExpression::Desc(expression) => {
            write_expression(expression, out);
            put(1, out);
        },
    }
}

fn write_aggregate(aggregate: &AggregateExpression, out: &mut Vec<u64>)
    ensures
        ints(final(out)@) == aggregate_code(aggregate@, ints(old(out)@)),
    decreases aggregate,
{
    match aggregate {
        AggregateExpression::CountSolutions { distinct } => {
            write_bool(*distinct, out);
            put(0, out);
        },
        AggregateExpression::FunctionCall { name, expr, distinct } => {
            write_aggregate_function(name, out);
            write_expression(expr, out);
            write_bool(*distinct, out);
            put(1, out);
        },
    }
}

fn write_aggregates(items: &Vec<(Variable, AggregateExpression)>, out: &mut Vec<u64>)
    ensures
        ints(final(out)@) == aggregates_code(aggregates_view(items@), ints(old(out)@)),
    decreases items,
{
    let ghost before = ints(out@);
    let ghost given = aggregates_view(items@);
    for i in 0..items.len()
        invariant
            given == aggregates_view(items@),
            ints(out@) == aggregates_upto(given, i as int, before),
    {
        assert(decreases_to!(items@[i as int] => items@[i as int].1));
        write_text(items[i].0.as_str(), out);
        write_aggregate(&items[i].1, out);
        assert(given[i as int] == (items@[i as int].0@, items@[i as int].1@));
    }
    put(items.len() as u64, out);
}

fn write_patterns(items: &Vec<GraphPattern>, out: &mut Vec<u64>)
    ensures
        ints(final(out)@) == plans_code(plans_view(items@), ints(old(out)@)),
    decreases items,
{
    let ghost before = ints(out@);
    let ghost given = plans_view(items@);
    for i in 0..items.len()
        invariant
            given == plans_view(items@),
            ints(out@) == plans_upto(given, i as int, before),
    {
        write_pattern(&items[i], out);
        assert(given[i as int] == items@[i as int]@);
    }
    put(items.len() as u64, out);
}

/// Writes the code of a pattern.
pub fn write_pattern(pattern: &GraphPattern, out: &mut Vec<u64>)
    ensures
        ints(final(out)@) == plan_code(pattern@, ints(old(out)@)),
    decreases pattern,
{
    match pattern {
        GraphPattern::QuadPattern { subject, predicate, object, graph_name } => {
            write_term(subject, out);
            write_node(predicate, out);
            write_term(object, out);
            write_optional_node(graph_name, out);
            put(0, out);
        },
        GraphPattern::Path { subject, path, object, graph_name } => {
            write_term(subject, out);
            write_path(path, out);
            write_term(object, out);
            write_optional_node(graph_name, out);
            put(1, out);
        },
        GraphPattern::Graph { graph_name } => {
            write_node(graph_name, out);
            put(2, out);
        },
        GraphPattern::Join { left, right, algorithm: JoinAlgorithm::HashBuildLeftProbeRight { keys } } => {
            write_pattern(left, out);
            write_pattern(right, out);
            write_variables(keys, out);
            put(3, out);
        },
        GraphPattern::LeftJoin { left, right, expression, algorithm: LeftJoinAlgorithm::HashBuildRightProbeLeft { keys } } => {
            write_pattern(left, out);
            write_pattern(right, out);
            write_expression(expression, out);
            write_variables(keys, out);
            put(4, out);
        },
        GraphPattern::Lateral { left, right } => {
            write_pattern(left, out);
            write_pattern(right, out);
            put(5, out);
        },
        GraphPattern::Filter { expression, inner } => {
            write_expression(expression, out);
            write_pattern(inner, out);
            put(6, out);
        },
        GraphPattern::Union { inner } => {
            write_patterns(inner, out);
            put(17, out);
        },
        GraphPattern::Extend { inner, variable, expression } => {
            write_pattern(inner, out);
            write_text(variable.as_str(), out);
            write_expression(expression, out);
            put(7, out);
        },
        GraphPattern::Minus { left, right, algorithm: MinusAlgorithm::HashBuildRightProbeLeft { keys } } => {
            write_pattern(left, out);
            write_pattern(right, out);
            write_variables(keys, out);
            put(8, out);
        },
        GraphPattern::Values { variables, bindings } => {
            write_variables(variables, out);
            write_rows(bindings, out);
            put(9, out);
        },
        GraphPattern::OrderBy { inner, expression } => {
            write_pattern(inner, out);
            write_criteria(expression, out);
            put(10, out);
        },
        GraphPattern::Project { inner, variables } => {
            write_pattern(inner, out);
            write_variables(variables, out);
            put(11, out);
        },
        GraphPattern::Distinct { inner } => {
            write_pattern(inner, out);
            put(12, out);
        },
        GraphPattern::Reduced { inner } => {
            write_pattern(inner, out);
            put(13, out);
        },
        GraphPattern::Slice { inner, start, length } => {
            write_pattern(inner, out);
            put(*start as u64, out);
            write_optional_number(*length, out);
            put(14, out);
        },
        GraphPattern::Group { inner, variables, aggregates } => {
            write_pattern(inner, out);
            write_variables(variables, out);
            write_aggregates(aggregates, out);
            put(15, out);
        },
        GraphPattern::Service { name, inner, silent } => {
            write_node(name, out);
            write_pattern(inner, out);
            write_bool(*silent, out);
            put(16, out);
        },
    }
}

} // verus!
