//! Functions and their parameters.
use vstd::prelude::*;
use crate::mir::graph::NodeId;
use crate::ir3::Parent;

verus! {

/// The parameter of a function, by position.
pub struct Parameter {
    pub position: usize,
}

impl Parameter {
    pub fn new(position: usize) -> (r: Parameter)
        ensures
            r.position == position,
    {
        Parameter { position }
    }
}

/// A function: its parameters, its return type and its body.
pub struct Function {
    pub parameters: Vec<Parameter>,
    pub return_type: Parameter,
    pub body: Vec<NodeId>,
}

impl Function {
    pub fn new(parameters: Vec<Parameter>, return_type: Parameter, body: Vec<NodeId>) -> (r: Function)
        ensures
            r.parameters@ == parameters@,
            r.return_type == return_type,
            r.body@ == body@,
    {
        Function { parameters, return_type, body }
    }
}

impl Parent for Function {
    open spec fn children_view(&self) -> Seq<NodeId> {
        self.body@
    }

    fn children(&self) -> (r: Vec<NodeId>) {
        crate::mir::graph::copy_ids(&self.body)
    }

    fn set_children(&mut self, children: Vec<NodeId>) {
        self.body = children;
    }
}

} // verus!
