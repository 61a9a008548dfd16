# sparopt

A verified optimizer for SPARQL query plans.

`Optimizer::optimize_graph_pattern` normalizes a plan, puts its joins in a good
order, and moves its filters down. What it returns is stated exactly, as a
function on plans: `reorder::optimize`. That the optimized plan gives the same
answer is proved from that statement.

## Layout

- `algebra`, `term`: plans, expressions and terms, and their mathematical views.
- `limits`: the limits that guide the optimizer, and how they are read from text.
- `builders`: plans and expressions with their obvious simplifications.
- `variables`, `type_inference`: which variables a plan uses, and of which types.
- `estimate`, `lookups`, `for_loop`, `greedy`: what a plan costs, when it can be
  evaluated in a loop, and which plan comes next.
- `factors`, `rewrites`: the operands of nested joins, and unions in joins.
- `plan_codes`, `arrange`: plans as numbers, and the one order of joined plans.
- `normalize`, `reorder`, `push_filters`, `optimizer`: the optimizer itself.
- `measure`, `depth`, `rewrite_measure`, `reorder_measure`: why it terminates.
- `semantics`, `solutions`, `bags`: the solutions of a plan, as bags.
- `scope`, `scoping`: when variables of the same name mean the same.
- the remaining modules: proofs. `laws` holds what is promised of the whole;
  `arrange_laws`, `atom_laws` and `push_laws` what is promised of single steps.

`app/` reads the limits from the environment and turns parsed queries into plans.

## What is promised

`laws::law_answer_preserved`: the optimized plan has the solutions of the plan,
each as often. It holds where the scopes of the plan are in order (`scoping::scoped`)
and where a property path that is joined with itself has each match once, as
predicates and repetitions have. Functions are taken as deterministic.
Evaluation is described by a `semantics::World`: what the data, the functions and
the aggregates give. All that is asked of it is `semantics::regular`.
