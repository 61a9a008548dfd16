//! A verified optimizer for SPARQL query plans.

pub mod algebra;
pub mod arrange;
pub mod arrange_laws;
pub mod atom_laws;
pub mod bags;
pub mod benefit_laws;
pub mod builders;
pub mod congruence;
pub mod depends;
pub mod depth;
pub mod estimate;
pub mod eval_basics;
pub mod exists_laws;
pub mod expr_laws;
pub mod factoring;
pub mod factors;
pub mod firm;
pub mod for_loop;
pub mod greedy;
pub mod greedy_laws;
pub mod joins;
pub mod key_laws;
pub mod laws;
pub mod limits;
pub mod lookups;
pub mod looping;
pub mod loops;
pub mod measure;
pub mod mute;
pub mod normalize;
pub mod normalize_laws;
pub mod optimizer;
pub mod order_laws;
pub mod ordering_laws;
pub mod origins;
pub mod pattern_laws;
pub mod plan_codes;
pub mod plan_laws;
pub mod plan_taming;
pub mod push_filters;
pub mod push_laws;
pub mod reorder;
pub mod reorder_laws;
pub mod reorder_measure;
pub mod reorder_steps;
pub mod rewrite_measure;
pub mod rewrites;
pub mod rewriting;
pub mod rewriting_unions;
pub mod scope;
pub mod scoping;
pub mod semantics;
pub mod solutions;
pub mod taming;
pub mod term;
pub mod type_inference;
pub mod type_laws;
pub mod typing;
pub mod variables;

pub use algebra::{
    AggregateExpression, AggregateFunction, Expression, Function, GraphPattern, JoinAlgorithm,
    LeftJoinAlgorithm, MinusAlgorithm, OrderExpression, PropertyPathExpression,
};
pub use limits::Limits;
pub use optimizer::Optimizer;
pub use term::{
    GroundTerm, GroundTermPattern, GroundTriple, GroundTriplePattern, Literal, NamedNode,
    NamedNodePattern, Variable,
};
