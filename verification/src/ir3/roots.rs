//! Parameters of the roots of the graph: functions and evaluators.
use vstd::prelude::*;
use crate::mir::graph::MirType;

verus! {

/// The parameter of a function or evaluator, by position, with its type.
pub struct Parameter {
    pub position: usize,
    pub ty: MirType,
}

impl Parameter {
    pub fn new(position: usize, ty: MirType) -> (r: Parameter)
        ensures
            r.position == position,
            r.ty == ty,
    {
        Parameter { position, ty }
    }
}

} // verus!
