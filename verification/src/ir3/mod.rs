//! Building blocks of the node-based representation: nodes with children, builders, function
//! bodies and their parameters.
use vstd::prelude::*;

pub mod call;
pub mod function;
pub mod roots;
use crate::mir::graph::NodeId;

verus! {

/// A node with children, held by index.
pub trait Parent {
    /// The children of the node, in order.
    spec fn children_view(&self) -> Seq<NodeId>;

    fn children(&self) -> (r: Vec<NodeId>)
        ensures
            r@ == self.children_view(),
    ;

    fn set_children(&mut self, children: Vec<NodeId>)
        ensures
            final(self).children_view() == children@,
    ;

    /// Removes every occurrence of `child` from the children, keeping the others in order.
    fn remove_child(&mut self, child: NodeId)
        ensures
            final(self).children_view() == old(self).children_view().filter(|c: NodeId| c != child),
    {
        let children = self.children();
        let ghost cs = children@;
        let mut kept: Vec<NodeId> = Vec::new();
        let mut k: usize = 0;
        while k < children.len()
            invariant
                cs == children@,
                k <= cs.len(),
                kept@ == cs.subrange(0, k as int).filter(|c: NodeId| c != child),
            decreases cs.len() - k,
        {
            let c = children[k];
            proof {
                let pre = cs.subrange(0, k as int);
                assert(cs.subrange(0, k + 1) =~= pre.push(c));
                pre.lemma_filter_push(c, |x: NodeId| x != child);
            }
            if c != child {
                kept.push(c);
            }
            k = k + 1;
        }
        proof {
            assert(cs.subrange(0, k as int) =~= cs);
        }
        self.set_children(kept);
    }
}

/// A node with a parent, held by index.
pub trait Child {
    /// The parent of the node, if it has one.
    spec fn parent_view(&self) -> Option<NodeId>;

    fn get_parent(&self) -> (r: Option<NodeId>)
        ensures
            r == self.parent_view(),
    ;

    fn set_parent(&mut self, parent: NodeId)
        ensures
            final(self).parent_view() == Some(parent),
    ;
}

/// Marks a field of a builder that has not been set.
pub struct NotSet {}

/// A node built through a builder.
pub trait Builder {
    type BuilderEmpty;
    type BuilderFull;

    /// A builder with no field set.
    fn builder() -> Self::BuilderEmpty;

    /// A builder with every field set from this node.
    fn edit(self) -> Self::BuilderFull;
}

} // verus!
