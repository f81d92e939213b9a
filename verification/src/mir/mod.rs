pub mod graph;
pub mod term;
pub mod duplicate;
pub mod subst;
pub mod eval;
pub mod bus_expand;
pub mod bus_op_expand;
pub mod constant_propagation;
pub mod inlining;
pub mod unrolling;
pub mod visitor;
pub mod loops;
pub mod translate;
