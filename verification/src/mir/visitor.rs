//! Walking the constraint graph.
use vstd::prelude::*;
use crate::mir::graph::{all_below, Graph, NodeId, Op};
use crate::mir::subst::operands;

verus! {

/// The orders in which a pass can visit the graph.
pub enum VisitOrder {
    Manual,
    DepthFirst,
    PostOrder,
}

/// A pass that visits the graph in the default way.
pub trait VisitDefault {
}

/// A pass that visits the nodes of the graph one by one, in one of the orders of
/// `VisitOrder`.
pub trait Visit {
    /// Visits one node.
    fn visit(&mut self, g: &Graph, node: NodeId);

    /// Visits the roots, boundary roots first, then integrity roots.
    fn visit_manual(&mut self, g: &Graph) {
        let roots = root_order(g);
        let mut k: usize = 0;
        while k < roots.len()
            decreases roots@.len() - k,
        {
            self.visit(g, roots[k]);
            k = k + 1;
        }
    }

    /// Visits the nodes in the order of `visit_postorder`.
    fn visit_postorder(&mut self, g: &Graph)
        requires
            g.wf(),
    {
        let order = crate::mir::visitor::visit_postorder(g);
        let mut k: usize = 0;
        while k < order.len()
            decreases order@.len() - k,
        {
            self.visit(g, order[k]);
            k = k + 1;
        }
    }

    /// Visits the nodes in the order of `depth_first_order` from the roots, boundary roots
    /// first, then integrity roots.
    fn visit_depthfirst(&mut self, g: &Graph)
        requires
            g.wf(),
    {
        let roots = root_order(g);
        proof {
            assert forall|x: int| 0 <= x < roots@.len() implies (#[trigger] roots@[x]) < g@.len() by {
                if x < g.boundary_roots@.len() {
                    assert(roots@[x] == g.boundary_roots@[x]);
                } else {
                    assert(roots@[x] == g.integrity_roots@[x - g.boundary_roots@.len()]);
                }
            }
        }
        let order = depth_first_order(g, &roots);
        let mut k: usize = 0;
        while k < order.len()
            decreases order@.len() - k,
        {
            self.visit(g, order[k]);
            k = k + 1;
        }
    }
}

pub proof fn lemma_operands_below(op: Op, n: nat)
    requires
        crate::mir::graph::operands_below(op, n),
    ensures
        all_below(operands(op), n),
{
}

/// The operands of node `n`.
pub fn get_children(g: &Graph, n: NodeId) -> (r: Vec<NodeId>)
    requires
        n < g@.len(),
    ensures
        r@ == operands(g@[n as int]),
{
    let mut r: Vec<NodeId> = Vec::new();
    match &g.nodes[n] {
        Op::Add(l, x) | Op::Sub(l, x) | Op::Mul(l, x) | Op::Exp(l, x) => {
            r.push(*l);
            r.push(*x);
        },
        Op::Enf(e) | Op::Boundary(_, e) | Op::Accessor(e, _, _) => {
            r.push(*e);
        },
        Op::If(c, t, e) => {
            r.push(*c);
            r.push(*t);
            r.push(*e);
        },
        Op::Fold(i, _, a) => {
            r.push(*i);
            r.push(*a);
        },
        Op::Vector(v) | Op::Matrix(v) | Op::Call(_, v) => {
            r = crate::mir::graph::copy_ids(v);
        },
        Op::For(its, body, sel) => {
            r = crate::mir::graph::copy_ids(its);
            r.push(*body);
            if let Some(x) = sel {
                r.push(*x);
            }
        },
        Op::BusOp(_, _, args, latch) => {
            r = crate::mir::graph::copy_ids(args);
            r.push(*latch);
        },
        _ => {},
    }
    proof {
        assert(r@ =~= operands(g@[n as int]));
    }
    r
}


/// The nodes a depth-first walk from node `n` visits, in order: `n`, then the walks from each
/// of its operands. A node shared by several operations is visited once per path to it.
pub open spec fn preorder(g: Seq<Op>, n: nat) -> Seq<NodeId>
    decreases n, 1nat, 0nat,
{
    if n >= g.len() {
        seq![n as usize]
    } else {
        seq![n as usize] + preorder_all(g, operands(g[n as int]), n)
    }
}

/// The walks from the nodes `ids` below `bound`, one after the other.
pub open spec fn preorder_all(g: Seq<Op>, ids: Seq<NodeId>, bound: nat) -> Seq<NodeId>
    decreases bound, 0nat, ids.len(),
{
    if ids.len() == 0 {
        Seq::empty()
    } else {
        preorder_all(g, ids.drop_last(), bound) + if ids.last() < bound {
            preorder(g, ids.last() as nat)
        } else {
            Seq::empty()
        }
    }
}

/// What remains to be visited when the work stack holds `st`, its top last.
pub open spec fn pending(g: Seq<Op>, st: Seq<NodeId>) -> Seq<NodeId>
    decreases st.len(),
{
    if st.len() == 0 {
        Seq::empty()
    } else {
        preorder(g, st.last() as nat) + pending(g, st.drop_last())
    }
}

/// The walks from nodes below `bound` can also be taken first to last.
proof fn lemma_preorder_all_front(g: Seq<Op>, ids: Seq<NodeId>, bound: nat)
    requires
        ids.len() > 0,
        all_below(ids, bound),
    ensures
        preorder_all(g, ids, bound) == preorder(g, ids[0] as nat) + preorder_all(
            g,
            ids.drop_first(),
            bound,
        ),
    decreases ids.len(),
{
    if ids.len() == 1 {
        assert(ids.drop_last() =~= Seq::<NodeId>::empty());
        assert(ids.drop_first() =~= Seq::<NodeId>::empty());
        assert(preorder_all(g, ids.drop_last(), bound) == Seq::<NodeId>::empty());
        assert(ids.last() == ids[0]);
        assert(Seq::<NodeId>::empty() + preorder(g, ids[0] as nat) =~= preorder(g, ids[0] as nat));
        assert(preorder_all(g, ids, bound) =~= preorder(g, ids[0] as nat));
    } else {
        lemma_preorder_all_front(g, ids.drop_last(), bound);
        assert(ids.drop_last().drop_first() =~= ids.drop_first().drop_last());
        assert(ids.drop_first().last() == ids.last());
        assert(ids.drop_last()[0] == ids[0]);
        assert(preorder_all(g, ids, bound) =~= preorder(g, ids[0] as nat) + preorder_all(
            g,
            ids.drop_first(),
            bound,
        ));
    }
}

/// Pushing the operands in reverse order puts the walks from them first, in order.
proof fn lemma_pending_push_rev(g: Seq<Op>, st: Seq<NodeId>, cs: Seq<NodeId>, bound: nat)
    requires
        all_below(cs, bound),
    ensures
        pending(g, st + cs.reverse()) == preorder_all(g, cs, bound) + pending(g, st),
    decreases cs.len(),
{
    if cs.len() == 0 {
        assert(st + cs.reverse() =~= st);
        assert(preorder_all(g, cs, bound) =~= Seq::<NodeId>::empty());
        assert(Seq::<NodeId>::empty() + pending(g, st) =~= pending(g, st));
    } else {
        let rest = cs.drop_first();
        lemma_pending_push_rev(g, st, rest, bound);
        lemma_preorder_all_front(g, cs, bound);
        let full = st + cs.reverse();
        assert(full.last() == cs[0]);
        assert(full.drop_last() =~= st + rest.reverse());
        assert(pending(g, full) =~= preorder_all(g, cs, bound) + pending(g, st));
    }
}

/// The nodes a depth-first walk from each root visits, root after root: the order in which a
/// pass that visits depth first sees them.
pub fn depth_first_order(g: &Graph, roots: &Vec<NodeId>) -> (r: Vec<NodeId>)
    requires
        g.wf(),
        all_below(roots@, g@.len()),
    ensures
        r@ == preorder_all(g@, roots@, g@.len()),
{
    let mut out: Vec<NodeId> = Vec::new();
    let mut k: usize = 0;
    while k < roots.len()
        invariant
            g.wf(),
            all_below(roots@, g@.len()),
            k <= roots@.len(),
            out@ == preorder_all(g@, roots@.subrange(0, k as int), g@.len()),
        decreases roots@.len() - k,
    {
        let root = roots[k];
        let ghost start = out@;
        let ghost target = start + preorder(g@, root as nat);
        let mut stack: Vec<NodeId> = Vec::new();
        stack.push(root);
        proof {
            assert(stack@.drop_last() =~= Seq::<NodeId>::empty());
            assert(pending(g@, stack@.drop_last()) == Seq::<NodeId>::empty());
            assert(preorder(g@, root as nat) + Seq::<NodeId>::empty() =~= preorder(g@, root as nat));
            assert(pending(g@, stack@) =~= preorder(g@, root as nat));
        }
        while stack.len() > 0
            invariant
                g.wf(),
                all_below(stack@, g@.len()),
                out@ + pending(g@, stack@) == target,
                start.len() <= out@.len() <= target.len(),
            decreases target.len() - out@.len(),
        {
            let n = stack.pop().unwrap();
            let ghost st = stack@;
            let children = get_children(g, n);
            proof {
                assert(crate::mir::graph::operands_below(g@[n as int], n as nat));
                lemma_operands_below(g@[n as int], n as nat);
                lemma_pending_push_rev(g@, st, children@, n as nat);
            }
            let mut j: usize = children.len();
            while j > 0
                invariant
                    j <= children@.len(),
                    stack@ == st + children@.subrange(j as int, children@.len() as int).reverse(),
                decreases j,
            {
                j = j - 1;
                stack.push(children[j]);
                proof {
                    assert(st + children@.subrange(j as int, children@.len() as int).reverse() =~= (st
                        + children@.subrange(j + 1, children@.len() as int).reverse()).push(
                        children@[j as int],
                    ));
                }
            }
            proof {
                assert(children@.subrange(0, children@.len() as int) =~= children@);
                assert forall|x: int| 0 <= x < stack@.len() implies (#[trigger] stack@[x]) < g@.len() by {
                    if x >= st.len() {
                        assert(stack@[x] == children@.reverse()[x - st.len()]);
                    }
                }
            }
            out.push(n);
            proof {
                assert(out@ + pending(g@, stack@) =~= target);
            }
        }
        proof {
            assert(roots@.subrange(0, k + 1).drop_last() =~= roots@.subrange(0, k as int));
            assert(roots@.subrange(0, k + 1).last() == root);
            assert(out@ =~= target);
        }
        k = k + 1;
    }
    proof {
        assert(roots@.subrange(0, k as int) =~= roots@);
    }
    out
}

/// The nodes a post-order walk from node `n` visits, in order: the walks from each of its
/// operands, left to right, then `n`. A node shared by several operations is visited once per
/// path to it.
pub open spec fn postorder(g: Seq<Op>, n: nat) -> Seq<NodeId>
    decreases n, 1nat, 0nat,
{
    if n >= g.len() {
        seq![n as usize]
    } else {
        postorder_all(g, operands(g[n as int]), n) + seq![n as usize]
    }
}

/// The post-order walks from the nodes `ids` below `bound`, one after the other.
pub open spec fn postorder_all(g: Seq<Op>, ids: Seq<NodeId>, bound: nat) -> Seq<NodeId>
    decreases bound, 0nat, ids.len(),
{
    if ids.len() == 0 {
        Seq::empty()
    } else {
        postorder_all(g, ids.drop_last(), bound) + if ids.last() < bound {
            postorder(g, ids.last() as nat)
        } else {
            Seq::empty()
        }
    }
}

/// Appends the post-order walk from node `n` to `out`.
fn post_walk(g: &Graph, n: NodeId, out: &mut Vec<NodeId>)
    requires
        g.wf(),
        n < g@.len(),
    ensures
        final(out)@ == old(out)@ + postorder(g@, n as nat),
    decreases n,
{
    let ghost start = out@;
    let children = get_children(g, n);
    proof {
        assert(crate::mir::graph::operands_below(g@[n as int], n as nat));
        lemma_operands_below(g@[n as int], n as nat);
        assert(children@.subrange(0, 0) =~= Seq::<NodeId>::empty());
        assert(start + postorder_all(g@, children@.subrange(0, 0), n as nat) =~= start);
    }
    let mut k: usize = 0;
    while k < children.len()
        invariant
            g.wf(),
            n < g@.len(),
            children@ == operands(g@[n as int]),
            all_below(children@, n as nat),
            k <= children@.len(),
            out@ == start + postorder_all(g@, children@.subrange(0, k as int), n as nat),
        decreases children@.len() - k,
    {
        let c = children[k];
        let ghost before = out@;
        post_walk(g, c, out);
        proof {
            assert(children@.subrange(0, k + 1).drop_last() =~= children@.subrange(0, k as int));
            assert(children@.subrange(0, k + 1).last() == c);
            assert(out@ =~= start + postorder_all(g@, children@.subrange(0, k + 1), n as nat));
        }
        k = k + 1;
    }
    out.push(n);
    proof {
        assert(children@.subrange(0, k as int) =~= children@);
        assert(out@ =~= start + postorder(g@, n as nat));
    }
}

/// The roots in the order in which a pass visits them: the boundary roots, then the integrity
/// roots.
pub fn root_order(g: &Graph) -> (r: Vec<NodeId>)
    ensures
        r@ == g.boundary_roots@ + g.integrity_roots@,
{
    let mut r = crate::mir::graph::copy_ids(&g.boundary_roots);
    let mut k: usize = 0;
    while k < g.integrity_roots.len()
        invariant
            k <= g.integrity_roots@.len(),
            r@ == g.boundary_roots@ + g.integrity_roots@.subrange(0, k as int),
        decreases g.integrity_roots@.len() - k,
    {
        r.push(g.integrity_roots[k]);
        k = k + 1;
        proof {
            assert(r@ =~= g.boundary_roots@ + g.integrity_roots@.subrange(0, k as int));
        }
    }
    proof {
        assert(g.integrity_roots@.subrange(0, k as int) =~= g.integrity_roots@);
    }
    r
}

/// The nodes a pass that visits in post-order sees: for each root, boundary roots first, then
/// integrity roots, the operands of each node before it, left to right, then the node.
pub fn visit_postorder(g: &Graph) -> (r: Vec<NodeId>)
    requires
        g.wf(),
    ensures
        r@ == postorder_all(g@, g.boundary_roots@ + g.integrity_roots@, g@.len()),
{
    let roots = root_order(g);
    let mut out: Vec<NodeId> = Vec::new();
    proof {
        assert(roots@.subrange(0, 0) =~= Seq::<NodeId>::empty());
        assert forall|x: int| 0 <= x < roots@.len() implies (#[trigger] roots@[x]) < g@.len() by {
            if x < g.boundary_roots@.len() {
                assert(roots@[x] == g.boundary_roots@[x]);
            } else {
                assert(roots@[x] == g.integrity_roots@[x - g.boundary_roots@.len()]);
            }
        }
    }
    let mut k: usize = 0;
    while k < roots.len()
        invariant
            g.wf(),
            all_below(roots@, g@.len()),
            k <= roots@.len(),
            out@ == postorder_all(g@, roots@.subrange(0, k as int), g@.len()),
        decreases roots@.len() - k,
    {
        let root = roots[k];
        post_walk(g, root, &mut out);
        proof {
            assert(roots@.subrange(0, k + 1).drop_last() =~= roots@.subrange(0, k as int));
            assert(roots@.subrange(0, k + 1).last() == root);
        }
        k = k + 1;
    }
    proof {
        assert(roots@.subrange(0, k as int) =~= roots@);
    }
    out
}

/// A node is among the walks from a list of nodes below `bound` exactly when it is in the walk
/// from one of them.
proof fn lemma_preorder_all_contains(g: Seq<Op>, ids: Seq<NodeId>, bound: nat, x: NodeId)
    requires
        all_below(ids, bound),
    ensures
        preorder_all(g, ids, bound).contains(x) <==> exists|k: int|
            0 <= k < ids.len() && #[trigger] preorder(g, ids[k] as nat).contains(x),
    decreases ids.len(),
{
    if ids.len() > 0 {
        let front = ids.drop_last();
        lemma_preorder_all_contains(g, front, bound, x);
        let a = preorder_all(g, front, bound);
        let b = preorder(g, ids.last() as nat);
        assert(preorder_all(g, ids, bound) == a + b);
        if (a + b).contains(x) {
            let i = choose|i: int| 0 <= i < (a + b).len() && (a + b)[i] == x;
            if i < a.len() {
                assert(a[i] == x);
                let k = choose|k: int| 0 <= k < front.len() && #[trigger] preorder(g, front[k] as nat).contains(x);
                assert(ids[k] == front[k]);
            } else {
                assert(b[i - a.len()] == x);
                assert(preorder(g, ids[ids.len() - 1] as nat).contains(x));
            }
        }
        if exists|k: int| 0 <= k < ids.len() && #[trigger] preorder(g, ids[k] as nat).contains(x) {
            let k = choose|k: int| 0 <= k < ids.len() && #[trigger] preorder(g, ids[k] as nat).contains(x);
            let j = choose|j: int| 0 <= j < preorder(g, ids[k] as nat).len() && preorder(g, ids[k] as nat)[j] == x;
            if k < ids.len() - 1 {
                assert(front[k] == ids[k]);
                assert(a.contains(x));
                let i = choose|i: int| 0 <= i < a.len() && a[i] == x;
                assert((a + b)[i] == x);
            } else {
                assert((a + b)[a.len() + j] == x);
            }
        }
    }
}


/// A node is among the post-order walks from a list of nodes below `bound` exactly when it is
/// in the walk from one of them.
proof fn lemma_postorder_all_contains(g: Seq<Op>, ids: Seq<NodeId>, bound: nat, x: NodeId)
    requires
        all_below(ids, bound),
    ensures
        postorder_all(g, ids, bound).contains(x) <==> exists|k: int|
            0 <= k < ids.len() && #[trigger] postorder(g, ids[k] as nat).contains(x),
    decreases ids.len(),
{
    if ids.len() > 0 {
        let front = ids.drop_last();
        lemma_postorder_all_contains(g, front, bound, x);
        let a = postorder_all(g, front, bound);
        let b = postorder(g, ids.last() as nat);
        assert(postorder_all(g, ids, bound) == a + b);
        if (a + b).contains(x) {
            let i = choose|i: int| 0 <= i < (a + b).len() && (a + b)[i] == x;
            if i < a.len() {
                assert(a[i] == x);
                let k = choose|k: int| 0 <= k < front.len() && #[trigger] postorder(g, front[k] as nat).contains(x);
                assert(ids[k] == front[k]);
            } else {
                assert(b[i - a.len()] == x);
                assert(postorder(g, ids[ids.len() - 1] as nat).contains(x));
            }
        }
        if exists|k: int| 0 <= k < ids.len() && #[trigger] postorder(g, ids[k] as nat).contains(x) {
            let k = choose|k: int| 0 <= k < ids.len() && #[trigger] postorder(g, ids[k] as nat).contains(x);
            let j = choose|j: int| 0 <= j < postorder(g, ids[k] as nat).len() && postorder(g, ids[k] as nat)[j] == x;
            if k < ids.len() - 1 {
                assert(front[k] == ids[k]);
                assert(a.contains(x));
                let i = choose|i: int| 0 <= i < a.len() && a[i] == x;
                assert((a + b)[i] == x);
            } else {
                assert((a + b)[a.len() + j] == x);
            }
        }
    }
}

/// The depth-first and the post-order walk from a node hold the same nodes.
proof fn lemma_walk_same_nodes(g: &Graph, n: NodeId, x: NodeId)
    requires
        g.wf(),
    ensures
        preorder(g@, n as nat).contains(x) <==> postorder(g@, n as nat).contains(x),
    decreases n,
{
    let pre = preorder(g@, n as nat);
    let post = postorder(g@, n as nat);
    if n < g@.len() {
        let ops = operands(g@[n as int]);
        assert(crate::mir::graph::operands_below(g@[n as int], n as nat));
        lemma_operands_below(g@[n as int], n as nat);
        let a = preorder_all(g@, ops, n as nat);
        let b = postorder_all(g@, ops, n as nat);
        assert(pre == seq![n] + a);
        assert(post == b + seq![n]);
        lemma_preorder_all_contains(g@, ops, n as nat, x);
        lemma_postorder_all_contains(g@, ops, n as nat, x);
        assert forall|k: int| 0 <= k < ops.len() implies (#[trigger] preorder(g@, ops[k] as nat).contains(x)
            <==> postorder(g@, ops[k] as nat).contains(x)) by {
            lemma_walk_same_nodes(g, ops[k], x);
        }
        if pre.contains(x) {
            let i = choose|i: int| 0 <= i < pre.len() && pre[i] == x;
            if i == 0 {
                assert(post[b.len() as int] == x);
            } else {
                assert(a[i - 1] == x);
                let k = choose|k: int| 0 <= k < ops.len() && #[trigger] preorder(g@, ops[k] as nat).contains(x);
                assert(postorder(g@, ops[k] as nat).contains(x));
                let j = choose|j: int| 0 <= j < b.len() && b[j] == x;
                assert(post[j] == x);
            }
        }
        if post.contains(x) {
            let i = choose|i: int| 0 <= i < post.len() && post[i] == x;
            if i == b.len() {
                assert(pre[0] == x);
            } else {
                assert(b[i] == x);
                let k = choose|k: int| 0 <= k < ops.len() && #[trigger] postorder(g@, ops[k] as nat).contains(x);
                assert(preorder(g@, ops[k] as nat).contains(x));
                let j = choose|j: int| 0 <= j < a.len() && a[j] == x;
                assert(pre[j + 1] == x);
            }
        }
    }
}

/// The depth-first walks and the post-order walks from the same roots visit the same nodes.
pub proof fn lemma_walks_reach_the_same_nodes(g: &Graph, roots: Seq<NodeId>, x: NodeId)
    requires
        g.wf(),
        all_below(roots, g@.len()),
    ensures
        preorder_all(g@, roots, g@.len()).contains(x) <==> postorder_all(g@, roots, g@.len()).contains(
            x,
        ),
{
    lemma_preorder_all_contains(g@, roots, g@.len(), x);
    lemma_postorder_all_contains(g@, roots, g@.len(), x);
    assert forall|k: int| 0 <= k < roots.len() implies (#[trigger] preorder(g@, roots[k] as nat).contains(x)
        <==> postorder(g@, roots[k] as nat).contains(x)) by {
        lemma_walk_same_nodes(g, roots[k], x);
    }
    if preorder_all(g@, roots, g@.len()).contains(x) {
        let k = choose|k: int| 0 <= k < roots.len() && #[trigger] preorder(g@, roots[k] as nat).contains(x);
        assert(postorder(g@, roots[k] as nat).contains(x));
    }
    if postorder_all(g@, roots, g@.len()).contains(x) {
        let k = choose|k: int| 0 <= k < roots.len() && #[trigger] postorder(g@, roots[k] as nat).contains(x);
        assert(preorder(g@, roots[k] as nat).contains(x));
    }
}

} // verus!
