//! Calls: nodes that call a function or evaluator with arguments, built through a builder
//! that checks the number of arguments.
use vstd::prelude::*;
use crate::mir::graph::{copy_ids, NodeId};
use crate::ir3::{Builder, Child, Parent};

verus! {

/// A call of the callable at index `function`, which takes `arity` parameters, with its
/// arguments; its parent, if it has one.
pub struct Call {
    pub parent: Option<NodeId>,
    pub function: usize,
    pub arity: usize,
    pub arguments: Vec<NodeId>,
}

/// A builder of a call whose callable is not set yet.
pub struct CallBuilderEmpty {
    pub parent: Option<NodeId>,
    pub arguments: Vec<NodeId>,
}

/// A builder of a call whose callable is set.
pub struct CallBuilderFull {
    pub parent: Option<NodeId>,
    pub function: usize,
    pub arity: usize,
    pub arguments: Vec<NodeId>,
}

impl Builder for Call {
    type BuilderEmpty = CallBuilderEmpty;
    type BuilderFull = CallBuilderFull;

    fn builder() -> (r: CallBuilderEmpty)
        ensures
            r.parent is None,
            r.arguments@.len() == 0,
    {
        CallBuilderEmpty { parent: None, arguments: Vec::new() }
    }

    fn edit(self) -> (r: CallBuilderFull)
        ensures
            r.parent == self.parent,
            r.function == self.function,
            r.arity == self.arity,
            r.arguments@ == self.arguments@,
    {
        CallBuilderFull {
            parent: self.parent,
            function: self.function,
            arity: self.arity,
            arguments: self.arguments,
        }
    }
}

impl CallBuilderEmpty {
    pub fn parent(self, parent: NodeId) -> (r: Self)
        ensures
            r.parent == Some(parent),
            r.arguments@ == self.arguments@,
    {
        CallBuilderEmpty { parent: Some(parent), arguments: self.arguments }
    }

    /// Sets the callable, which takes `arity` parameters.
    pub fn function(self, function: usize, arity: usize) -> (r: CallBuilderFull)
        ensures
            r.parent == self.parent,
            r.function == function,
            r.arity == arity,
            r.arguments@ == self.arguments@,
    {
        CallBuilderFull { parent: self.parent, function, arity, arguments: self.arguments }
    }

    pub fn arguments(self, arguments: Vec<NodeId>) -> (r: Self)
        ensures
            r.parent == self.parent,
            r.arguments@ == arguments@,
    {
        CallBuilderEmpty { parent: self.parent, arguments }
    }
}

impl CallBuilderFull {
    pub fn parent(self, parent: NodeId) -> (r: Self)
        ensures
            r.parent == Some(parent),
            r.function == self.function,
            r.arity == self.arity,
            r.arguments@ == self.arguments@,
    {
        CallBuilderFull { parent: Some(parent), ..self }
    }

    /// Sets the callable, which takes `arity` parameters.
    pub fn function(self, function: usize, arity: usize) -> (r: Self)
        ensures
            r.parent == self.parent,
            r.function == function,
            r.arity == arity,
            r.arguments@ == self.arguments@,
    {
        CallBuilderFull { function, arity, ..self }
    }

    /// Adds an argument after the others.
    pub fn argument(self, argument: NodeId) -> (r: Self)
        ensures
            r.parent == self.parent,
            r.function == self.function,
            r.arity == self.arity,
            r.arguments@ == self.arguments@.push(argument),
    {
        let mut arguments = self.arguments;
        arguments.push(argument);
        CallBuilderFull { parent: self.parent, function: self.function, arity: self.arity, arguments }
    }

    /// The call; it has exactly one argument per parameter of the callable.
    pub fn build(self) -> (r: Call)
        requires
            self.arguments@.len() == self.arity,
        ensures
            r.parent == self.parent,
            r.function == self.function,
            r.arity == self.arity,
            r.arguments@ == self.arguments@,
    {
        Call { parent: self.parent, function: self.function, arity: self.arity, arguments: self.arguments }
    }
}

impl Parent for Call {
    open spec fn children_view(&self) -> Seq<NodeId> {
        self.arguments@
    }

    fn children(&self) -> (r: Vec<NodeId>) {
        copy_ids(&self.arguments)
    }

    fn set_children(&mut self, children: Vec<NodeId>) {
        self.arguments = children;
    }
}

impl Child for Call {
    open spec fn parent_view(&self) -> Option<NodeId> {
        self.parent
    }

    fn get_parent(&self) -> (r: Option<NodeId>) {
        self.parent
    }

    fn set_parent(&mut self, parent: NodeId) {
        self.parent = Some(parent);
    }
}

} // verus!
