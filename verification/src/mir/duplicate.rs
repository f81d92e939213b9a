//! Copying expression trees, and copying them while substituting arguments for parameters.
use vstd::prelude::*;
use crate::mir::graph::{all_below, copy_ids, nodes_wf, operands_below, Graph, NodeId, Op};
use crate::mir::subst::operands;
use crate::mir::term::{
    lemma_term_extend, lemma_terms_ext, lemma_terms_extend, lemma_terms_index, term, terms, Term,
};

verus! {

/// Extension of graphs is transitive.
pub proof fn lemma_extends_trans(a: &Graph, b: &Graph, c: &Graph)
    requires
        b.extends(a),
        c.extends(b),
    ensures
        c.extends(a),
{
    assert(c.nodes@.subrange(0, a.nodes@.len() as int) =~= b.nodes@.subrange(
        0,
        a.nodes@.len() as int,
    ));
}

/// After storing one more node, the trees of the operands it refers to are those of the
/// graph before.
pub proof fn lemma_new_node_term(before: &Graph, after: &Graph, id: NodeId)
    requires
        after.extends(before),
        id == before@.len(),
        after@.len() == id + 1,
        operands_below(after@[id as int], id as nat),
    ensures
        forall|c: nat| c < id ==> term(#[trigger] after@, c) == term(before@, c),
        forall|ids: Seq<NodeId>| #[trigger] terms(after@, ids, id as nat) == terms(before@, ids, id as nat),
{
    assert forall|c: nat| c < id implies term(#[trigger] after@, c) == term(before@, c) by {
        lemma_term_extend(before@, after@, c);
    }
    assert forall|ids: Seq<NodeId>| #[trigger] terms(after@, ids, id as nat) == terms(before@, ids, id as nat) by {
        lemma_terms_extend(before@, after@, ids, id as nat);
    }
}

/// Every graph extends itself.
pub proof fn lemma_extends_refl(a: &Graph)
    ensures
        a.extends(a),
{
    assert(a.nodes@.subrange(0, a.nodes@.len() as int) =~= a.nodes@);
}

/// The tree of a stored node is the same in any extension of the graph.
pub proof fn lemma_term_kept(old: &Graph, new: &Graph, id: nat)
    requires
        new.extends(old),
        id < old@.len(),
    ensures
        term(new@, id) == term(old@, id),
{
    lemma_term_extend(old@, new@, id);
}

/// Node `n` of `g` and every node below it are new, stored at `base` or after, except that the
/// operand of an `Enf` may be any stored node.
pub open spec fn fresh_tree(g: Seq<Op>, n: nat, base: nat) -> bool
    decreases n,
{
    &&& base <= n
    &&& n < g.len()
    &&& (g[n as int] is Enf || forall|k: int|
        0 <= k < operands(g[n as int]).len() ==> (#[trigger] operands(g[n as int])[k]) < n
            && fresh_tree(g, operands(g[n as int])[k] as nat, base))
}

/// A fresh tree stays fresh in any extension of the graph, and above any lower base.
proof fn lemma_fresh_kept(g1: &Graph, g2: &Graph, n: nat, b1: nat, b2: nat)
    requires
        g2.extends(g1),
        fresh_tree(g1@, n, b1),
        b2 <= b1,
    ensures
        fresh_tree(g2@, n, b2),
    decreases n,
{
    assert(g2@[n as int] == g1@[n as int]) by {
        assert(g2@.subrange(0, g1@.len() as int)[n as int] == g2@[n as int]);
    }
    if !(g1@[n as int] is Enf) {
        assert forall|k: int| 0 <= k < operands(g2@[n as int]).len() implies (#[trigger] operands(
            g2@[n as int],
        )[k]) < n && fresh_tree(g2@, operands(g2@[n as int])[k] as nat, b2) by {
            lemma_fresh_kept(g1, g2, operands(g1@[n as int])[k] as nat, b1, b2);
        }
    }
}

/// A node stored on top of fresh trees is a fresh tree.
proof fn lemma_fresh_new_node(before: &Graph, after: &Graph, id: NodeId, base: nat)
    requires
        after.extends(before),
        id == before@.len(),
        after@.len() == id + 1,
        base <= id,
        after@[id as int] is Enf || forall|k: int|
            0 <= k < operands(after@[id as int]).len() ==> fresh_tree(
                before@,
                #[trigger] operands(after@[id as int])[k] as nat,
                base,
            ),
    ensures
        fresh_tree(after@, id as nat, base),
{
    if !(after@[id as int] is Enf) {
        assert forall|k: int| 0 <= k < operands(after@[id as int]).len() implies (
        #[trigger] operands(after@[id as int])[k]) < id && fresh_tree(
            after@,
            operands(after@[id as int])[k] as nat,
            base,
        ) by {
            lemma_fresh_kept(before, after, operands(after@[id as int])[k] as nat, base, base);
        }
    }
}

/// Makes a fresh copy of the tree below `node`: every operation below it is stored again,
/// so every node reachable from the copy is new, except through the operand of an `Enf`,
/// which is shared: its copy is made, and the new `Enf` refers to the original operand.
/// Function references of calls are kept.
pub fn duplicate_node(g: &mut Graph, node: NodeId) -> (r: NodeId)
    requires
        old(g).wf(),
        node < old(g)@.len(),
    ensures
        final(g).wf(),
        final(g).extends(old(g)),
        old(g)@.len() <= r < final(g)@.len(),
        term(final(g)@, r as nat) == term(old(g)@, node as nat),
        fresh_tree(final(g)@, r as nat, old(g)@.len() as nat),
    decreases node, 2nat,
{
    match &g.nodes[node] {
        Op::Value(..) => duplicate_value(g, node),
        Op::Parameter(..) => duplicate_parameter(g, node),
        Op::Add(..) => duplicate_add(g, node),
        Op::Sub(..) => duplicate_sub(g, node),
        Op::Mul(..) => duplicate_mul(g, node),
        Op::Exp(..) => duplicate_exp(g, node),
        Op::Enf(..) => duplicate_enf(g, node),
        Op::Boundary(..) => duplicate_boundary(g, node),
        Op::Accessor(..) => duplicate_accessor(g, node),
        Op::If(..) => duplicate_if_op(g, node),
        Op::Fold(..) => duplicate_fold(g, node),
        Op::Vector(..) => duplicate_vector(g, node),
        Op::Matrix(..) => duplicate_matrix(g, node),
        Op::Call(..) => duplicate_call(g, node),
        Op::For(..) => duplicate_for_op(g, node),
        Op::BusOp(..) => duplicate_bus_op(g, node),
        Op::Nothing => duplicate_nothing(g, node),
    }
}

fn duplicate_value(g: &mut Graph, node: NodeId) -> (r: NodeId)
    requires
        old(g).wf(),
        node < old(g)@.len(),
        old(g)@[node as int] is Value,
    ensures
        final(g).wf(),
        final(g).extends(old(g)),
        old(g)@.len() <= r < final(g)@.len(),
        term(final(g)@, r as nat) == term(old(g)@, node as nat),
        fresh_tree(final(g)@, r as nat, old(g)@.len() as nat),
    decreases node, 1nat,
{
    let ghost g0 = *g;
    proof {
        assert(operands_below(g@[node as int], node as nat));
        lemma_extends_refl(g);
    }
    match &g.nodes[node] {
        Op::Value(v) => {
            let v = crate::mir::graph::copy_value(v);
            let ghost gm = *g;
            let id = g.insert(Op::Value(v));
            proof {
                lemma_extends_trans(&g0, &gm, g);
                lemma_new_node_term(&gm, g, id);
                lemma_fresh_new_node(&gm, g, id, g0@.len() as nat);
            }
            id
        },
        _ => {
            proof {
                assert(false);
            }
            0
        },
    }
}

fn duplicate_parameter(g: &mut Graph, node: NodeId) -> (r: NodeId)
    requires
        old(g).wf(),
        node < old(g)@.len(),
        old(g)@[node as int] is Parameter,
    ensures
        final(g).wf(),
        final(g).extends(old(g)),
        old(g)@.len() <= r < final(g)@.len(),
        term(final(g)@, r as nat) == term(old(g)@, node as nat),
        fresh_tree(final(g)@, r as nat, old(g)@.len() as nat),
    decreases node, 1nat,
{
    let ghost g0 = *g;
    proof {
        assert(operands_below(g@[node as int], node as nat));
        lemma_extends_refl(g);
    }
    match &g.nodes[node] {
        Op::Parameter(p, t) => {
            let p = *p;
            let t = *t;
            let ghost gm = *g;
            let id = g.insert(Op::Parameter(p, t));
            proof {
                lemma_extends_trans(&g0, &gm, g);
                lemma_new_node_term(&gm, g, id);
                lemma_fresh_new_node(&gm, g, id, g0@.len() as nat);
            }
            id
        },
        _ => {
            proof {
                assert(false);
            }
            0
        },
    }
}

fn duplicate_add(g: &mut Graph, node: NodeId) -> (r: NodeId)
    requires
        old(g).wf(),
        node < old(g)@.len(),
        old(g)@[node as int] is Add,
    ensures
        final(g).wf(),
        final(g).extends(old(g)),
        old(g)@.len() <= r < final(g)@.len(),
        term(final(g)@, r as nat) == term(old(g)@, node as nat),
        fresh_tree(final(g)@, r as nat, old(g)@.len() as nat),
    decreases node, 1nat,
{
    let ghost g0 = *g;
    proof {
        assert(operands_below(g@[node as int], node as nat));
        lemma_extends_refl(g);
    }
    match &g.nodes[node] {
        Op::Add(l, r) => {
            let (l, r) = (*l, *r);
            let (nl, nr) = duplicate_pair(g, l, r, node);
            let ghost gm = *g;
            let id = g.insert(Op::Add(nl, nr));
            proof {
                lemma_extends_trans(&g0, &gm, g);
                lemma_new_node_term(&gm, g, id);
                assert(operands(g@[id as int]) =~= seq![nl, nr]);
                lemma_fresh_new_node(&gm, g, id, g0@.len() as nat);
            }
            id
        },
        _ => {
            proof {
                assert(false);
            }
            0
        },
    }
}

fn duplicate_sub(g: &mut Graph, node: NodeId) -> (r: NodeId)
    requires
        old(g).wf(),
        node < old(g)@.len(),
        old(g)@[node as int] is Sub,
    ensures
        final(g).wf(),
        final(g).extends(old(g)),
        old(g)@.len() <= r < final(g)@.len(),
        term(final(g)@, r as nat) == term(old(g)@, node as nat),
        fresh_tree(final(g)@, r as nat, old(g)@.len() as nat),
    decreases node, 1nat,
{
    let ghost g0 = *g;
    proof {
        assert(operands_below(g@[node as int], node as nat));
        lemma_extends_refl(g);
    }
    match &g.nodes[node] {
        Op::Sub(l, r) => {
            let (l, r) = (*l, *r);
            let (nl, nr) = duplicate_pair(g, l, r, node);
            let ghost gm = *g;
            let id = g.insert(Op::Sub(nl, nr));
            proof {
                lemma_extends_trans(&g0, &gm, g);
                lemma_new_node_term(&gm, g, id);
                assert(operands(g@[id as int]) =~= seq![nl, nr]);
                lemma_fresh_new_node(&gm, g, id, g0@.len() as nat);
            }
            id
        },
        _ => {
            proof {
                assert(false);
            }
            0
        },
    }
}

fn duplicate_mul(g: &mut Graph, node: NodeId) -> (r: NodeId)
    requires
        old(g).wf(),
        node < old(g)@.len(),
        old(g)@[node as int] is Mul,
    ensures
        final(g).wf(),
        final(g).extends(old(g)),
        old(g)@.len() <= r < final(g)@.len(),
        term(final(g)@, r as nat) == term(old(g)@, node as nat),
        fresh_tree(final(g)@, r as nat, old(g)@.len() as nat),
    decreases node, 1nat,
{
    let ghost g0 = *g;
    proof {
        assert(operands_below(g@[node as int], node as nat));
        lemma_extends_refl(g);
    }
    match &g.nodes[node] {
        Op::Mul(l, r) => {
            let (l, r) = (*l, *r);
            let (nl, nr) = duplicate_pair(g, l, r, node);
            let ghost gm = *g;
            let id = g.insert(Op::Mul(nl, nr));
            proof {
                lemma_extends_trans(&g0, &gm, g);
                lemma_new_node_term(&gm, g, id);
                assert(operands(g@[id as int]) =~= seq![nl, nr]);
                lemma_fresh_new_node(&gm, g, id, g0@.len() as nat);
            }
            id
        },
        _ => {
            proof {
                assert(false);
            }
            0
        },
    }
}

fn duplicate_exp(g: &mut Graph, node: NodeId) -> (r: NodeId)
    requires
        old(g).wf(),
        node < old(g)@.len(),
        old(g)@[node as int] is Exp,
    ensures
        final(g).wf(),
        final(g).extends(old(g)),
        old(g)@.len() <= r < final(g)@.len(),
        term(final(g)@, r as nat) == term(old(g)@, node as nat),
        fresh_tree(final(g)@, r as nat, old(g)@.len() as nat),
    decreases node, 1nat,
{
    let ghost g0 = *g;
    proof {
        assert(operands_below(g@[node as int], node as nat));
        lemma_extends_refl(g);
    }
    match &g.nodes[node] {
        Op::Exp(l, r) => {
            let (l, r) = (*l, *r);
            let (nl, nr) = duplicate_pair(g, l, r, node);
            let ghost gm = *g;
            let id = g.insert(Op::Exp(nl, nr));
            proof {
                lemma_extends_trans(&g0, &gm, g);
                lemma_new_node_term(&gm, g, id);
                assert(operands(g@[id as int]) =~= seq![nl, nr]);
                lemma_fresh_new_node(&gm, g, id, g0@.len() as nat);
            }
            id
        },
        _ => {
            proof {
                assert(false);
            }
            0
        },
    }
}

fn duplicate_enf(g: &mut Graph, node: NodeId) -> (r: NodeId)
    requires
        old(g).wf(),
        node < old(g)@.len(),
        old(g)@[node as int] is Enf,
    ensures
        final(g).wf(),
        final(g).extends(old(g)),
        old(g)@.len() <= r < final(g)@.len(),
        term(final(g)@, r as nat) == term(old(g)@, node as nat),
        fresh_tree(final(g)@, r as nat, old(g)@.len() as nat),
    decreases node, 1nat,
{
    let ghost g0 = *g;
    proof {
        assert(operands_below(g@[node as int], node as nat));
        lemma_extends_refl(g);
    }
    match &g.nodes[node] {
        Op::Enf(e) => {
            let e = *e;
            let _copy = duplicate_node(g, e);
            proof {
                lemma_term_kept(&g0, g, e as nat);
            }
            let ghost gm = *g;
            let id = g.insert(Op::Enf(e));
            proof {
                lemma_extends_trans(&g0, &gm, g);
                lemma_new_node_term(&gm, g, id);
                lemma_fresh_new_node(&gm, g, id, g0@.len() as nat);
            }
            id
        },
        _ => {
            proof {
                assert(false);
            }
            0
        },
    }
}

fn duplicate_boundary(g: &mut Graph, node: NodeId) -> (r: NodeId)
    requires
        old(g).wf(),
        node < old(g)@.len(),
        old(g)@[node as int] is Boundary,
    ensures
        final(g).wf(),
        final(g).extends(old(g)),
        old(g)@.len() <= r < final(g)@.len(),
        term(final(g)@, r as nat) == term(old(g)@, node as nat),
        fresh_tree(final(g)@, r as nat, old(g)@.len() as nat),
    decreases node, 1nat,
{
    let ghost g0 = *g;
    proof {
        assert(operands_below(g@[node as int], node as nat));
        lemma_extends_refl(g);
    }
    match &g.nodes[node] {
        Op::Boundary(k, e) => {
            let (k, e) = (*k, *e);
            let ne = duplicate_node(g, e);
            let ghost gm = *g;
            let id = g.insert(Op::Boundary(k, ne));
            proof {
                lemma_extends_trans(&g0, &gm, g);
                lemma_new_node_term(&gm, g, id);
                lemma_fresh_new_node(&gm, g, id, g0@.len() as nat);
            }
            id
        },
        _ => {
            proof {
                assert(false);
            }
            0
        },
    }
}

fn duplicate_accessor(g: &mut Graph, node: NodeId) -> (r: NodeId)
    requires
        old(g).wf(),
        node < old(g)@.len(),
        old(g)@[node as int] is Accessor,
    ensures
        final(g).wf(),
        final(g).extends(old(g)),
        old(g)@.len() <= r < final(g)@.len(),
        term(final(g)@, r as nat) == term(old(g)@, node as nat),
        fresh_tree(final(g)@, r as nat, old(g)@.len() as nat),
    decreases node, 1nat,
{
    let ghost g0 = *g;
    proof {
        assert(operands_below(g@[node as int], node as nat));
        lemma_extends_refl(g);
    }
    match &g.nodes[node] {
        Op::Accessor(i, a, o) => {
            let (i, a, o) = (*i, *a, *o);
            let ni = duplicate_node(g, i);
            let ghost gm = *g;
            let id = g.insert(Op::Accessor(ni, a, o));
            proof {
                lemma_extends_trans(&g0, &gm, g);
                lemma_new_node_term(&gm, g, id);
                lemma_fresh_new_node(&gm, g, id, g0@.len() as nat);
            }
            id
        },
        _ => {
            proof {
                assert(false);
            }
            0
        },
    }
}

fn duplicate_if_op(g: &mut Graph, node: NodeId) -> (r: NodeId)
    requires
        old(g).wf(),
        node < old(g)@.len(),
        old(g)@[node as int] is If,
    ensures
        final(g).wf(),
        final(g).extends(old(g)),
        old(g)@.len() <= r < final(g)@.len(),
        term(final(g)@, r as nat) == term(old(g)@, node as nat),
        fresh_tree(final(g)@, r as nat, old(g)@.len() as nat),
    decreases node, 1nat,
{
    let ghost g0 = *g;
    proof {
        assert(operands_below(g@[node as int], node as nat));
        lemma_extends_refl(g);
    }
    match &g.nodes[node] {
        Op::If(c, t, e) => {
            let (c, t, e) = (*c, *t, *e);
            let nc = duplicate_node(g, c);
            let ghost g1 = *g;
            let (nt, ne) = duplicate_pair(g, t, e, node);
            proof {
                lemma_term_kept(&g1, g, nc as nat);
                lemma_term_kept(&g0, &g1, t as nat);
                lemma_term_kept(&g0, &g1, e as nat);
                lemma_extends_trans(&g0, &g1, g);
                lemma_fresh_kept(&g1, g, nc as nat, g0@.len() as nat, g0@.len() as nat);
                lemma_extends_refl(g);
                lemma_fresh_kept(g, g, nt as nat, g1@.len() as nat, g0@.len() as nat);
                lemma_fresh_kept(g, g, ne as nat, g1@.len() as nat, g0@.len() as nat);
            }
            let ghost gm = *g;
            let id = g.insert(Op::If(nc, nt, ne));
            proof {
                lemma_extends_trans(&g0, &gm, g);
                lemma_new_node_term(&gm, g, id);
                assert(operands(g@[id as int]) =~= seq![nc, nt, ne]);
                lemma_fresh_new_node(&gm, g, id, g0@.len() as nat);
            }
            id
        },
        _ => {
            proof {
                assert(false);
            }
            0
        },
    }
}

fn duplicate_fold(g: &mut Graph, node: NodeId) -> (r: NodeId)
    requires
        old(g).wf(),
        node < old(g)@.len(),
        old(g)@[node as int] is Fold,
    ensures
        final(g).wf(),
        final(g).extends(old(g)),
        old(g)@.len() <= r < final(g)@.len(),
        term(final(g)@, r as nat) == term(old(g)@, node as nat),
        fresh_tree(final(g)@, r as nat, old(g)@.len() as nat),
    decreases node, 1nat,
{
    let ghost g0 = *g;
    proof {
        assert(operands_below(g@[node as int], node as nat));
        lemma_extends_refl(g);
    }
    match &g.nodes[node] {
        Op::Fold(i, o, a) => {
            let (i, o, a) = (*i, *o, *a);
            let (ni, na) = duplicate_pair(g, i, a, node);
            let ghost gm = *g;
            let id = g.insert(Op::Fold(ni, o, na));
            proof {
                lemma_extends_trans(&g0, &gm, g);
                lemma_new_node_term(&gm, g, id);
                assert(operands(g@[id as int]) =~= seq![ni, na]);
                lemma_fresh_new_node(&gm, g, id, g0@.len() as nat);
            }
            id
        },
        _ => {
            proof {
                assert(false);
            }
            0
        },
    }
}

fn duplicate_vector(g: &mut Graph, node: NodeId) -> (r: NodeId)
    requires
        old(g).wf(),
        node < old(g)@.len(),
        old(g)@[node as int] is Vector,
    ensures
        final(g).wf(),
        final(g).extends(old(g)),
        old(g)@.len() <= r < final(g)@.len(),
        term(final(g)@, r as nat) == term(old(g)@, node as nat),
        fresh_tree(final(g)@, r as nat, old(g)@.len() as nat),
    decreases node, 1nat,
{
    let ghost g0 = *g;
    proof {
        assert(operands_below(g@[node as int], node as nat));
        lemma_extends_refl(g);
    }
    match &g.nodes[node] {
        Op::Vector(v) => {
            let ids = copy_ids(v);
            let nids = duplicate_list(g, &ids, node);
            proof {
                lemma_terms_ext(g@, nids@, g@.len(), g0@, ids@, node as nat);
            }
            let ghost gm = *g;
            let id = g.insert(Op::Vector(nids));
            proof {
                lemma_extends_trans(&g0, &gm, g);
                lemma_new_node_term(&gm, g, id);
                lemma_fresh_new_node(&gm, g, id, g0@.len() as nat);
                assert(g@[id as int] matches Op::Vector(w) && w@ == nids@);
                assert(terms(g@, nids@, id as nat) == terms(gm@, nids@, id as nat));
                assert(term(g@, id as nat) == Term::Vector(terms(gm@, nids@, id as nat)));
                assert(term(g0@, node as nat) == Term::Vector(terms(g0@, ids@, node as nat)));
            }
            id
        },
        _ => {
            proof {
                assert(false);
            }
            0
        },
    }
}

fn duplicate_matrix(g: &mut Graph, node: NodeId) -> (r: NodeId)
    requires
        old(g).wf(),
        node < old(g)@.len(),
        old(g)@[node as int] is Matrix,
    ensures
        final(g).wf(),
        final(g).extends(old(g)),
        old(g)@.len() <= r < final(g)@.len(),
        term(final(g)@, r as nat) == term(old(g)@, node as nat),
        fresh_tree(final(g)@, r as nat, old(g)@.len() as nat),
    decreases node, 1nat,
{
    let ghost g0 = *g;
    proof {
        assert(operands_below(g@[node as int], node as nat));
        lemma_extends_refl(g);
    }
    match &g.nodes[node] {
        Op::Matrix(v) => {
            let ids = copy_ids(v);
            let nids = duplicate_list(g, &ids, node);
            proof {
                lemma_terms_ext(g@, nids@, g@.len(), g0@, ids@, node as nat);
            }
            let ghost gm = *g;
            let id = g.insert(Op::Matrix(nids));
            proof {
                lemma_extends_trans(&g0, &gm, g);
                lemma_new_node_term(&gm, g, id);
                lemma_fresh_new_node(&gm, g, id, g0@.len() as nat);
                assert(terms(g@, nids@, id as nat) == terms(gm@, nids@, id as nat));
                assert(term(g0@, node as nat) == Term::Matrix(terms(g0@, ids@, node as nat)));
            }
            id
        },
        _ => {
            proof {
                assert(false);
            }
            0
        },
    }
}

fn duplicate_call(g: &mut Graph, node: NodeId) -> (r: NodeId)
    requires
        old(g).wf(),
        node < old(g)@.len(),
        old(g)@[node as int] is Call,
    ensures
        final(g).wf(),
        final(g).extends(old(g)),
        old(g)@.len() <= r < final(g)@.len(),
        term(final(g)@, r as nat) == term(old(g)@, node as nat),
        fresh_tree(final(g)@, r as nat, old(g)@.len() as nat),
    decreases node, 1nat,
{
    let ghost g0 = *g;
    proof {
        assert(operands_below(g@[node as int], node as nat));
        lemma_extends_refl(g);
    }
    match &g.nodes[node] {
        Op::Call(f, args) => {
            let f = *f;
            let ids = copy_ids(args);
            let nids = duplicate_list(g, &ids, node);
            proof {
                lemma_terms_ext(g@, nids@, g@.len(), g0@, ids@, node as nat);
            }
            let ghost gm = *g;
            let id = g.insert(Op::Call(f, nids));
            proof {
                lemma_extends_trans(&g0, &gm, g);
                lemma_new_node_term(&gm, g, id);
                lemma_fresh_new_node(&gm, g, id, g0@.len() as nat);
                assert(terms(g@, nids@, id as nat) == terms(gm@, nids@, id as nat));
                assert(term(g0@, node as nat) == Term::Call(f, terms(g0@, ids@, node as nat)));
            }
            id
        },
        _ => {
            proof {
                assert(false);
            }
            0
        },
    }
}

fn duplicate_for_op(g: &mut Graph, node: NodeId) -> (r: NodeId)
    requires
        old(g).wf(),
        node < old(g)@.len(),
        old(g)@[node as int] is For,
    ensures
        final(g).wf(),
        final(g).extends(old(g)),
        old(g)@.len() <= r < final(g)@.len(),
        term(final(g)@, r as nat) == term(old(g)@, node as nat),
        fresh_tree(final(g)@, r as nat, old(g)@.len() as nat),
    decreases node, 1nat,
{
    let ghost g0 = *g;
    proof {
        assert(operands_below(g@[node as int], node as nat));
        lemma_extends_refl(g);
    }
    match &g.nodes[node] {
        Op::For(its, body, sel) => {
            let body = *body;
            let sel = *sel;
            let ids = copy_ids(its);
            let nids = duplicate_list(g, &ids, node);
            let ghost g1 = *g;
            proof {
                lemma_term_kept(&g0, &g1, body as nat);
            }
            let nbody = duplicate_node(g, body);
            let ghost g2 = *g;
            proof {
                lemma_extends_trans(&g0, &g1, &g2);
                if let Some(s) = sel {
                    lemma_term_kept(&g0, &g2, s as nat);
                }
            }
            let nsel = match sel {
                Some(s) => Some(duplicate_node(g, s)),
                None => None,
            };
            proof {
                lemma_extends_refl(g);
                lemma_extends_trans(&g1, &g2, g);
                lemma_extends_trans(&g0, &g1, g);
                lemma_term_kept(&g2, g, nbody as nat);
                assert forall|k: int| 0 <= k < nids@.len() implies term(
                    g@,
                    #[trigger] nids@[k] as nat,
                ) == term(g0@, ids@[k] as nat) by {
                    lemma_term_kept(&g1, g, nids@[k] as nat);
                }
                lemma_terms_ext(g@, nids@, g@.len(), g0@, ids@, node as nat);
            }
            let ghost gm = *g;
            let id = g.insert(Op::For(nids, nbody, nsel));
            proof {
                lemma_extends_trans(&g0, &gm, g);
                lemma_new_node_term(&gm, g, id);
                let ops = operands(g@[id as int]);
                lemma_fresh_kept(&g2, &gm, nbody as nat, g1@.len() as nat, g0@.len() as nat);
                if let Some(ns) = nsel {
                    lemma_extends_refl(&gm);
                    lemma_fresh_kept(&gm, &gm, ns as nat, g2@.len() as nat, g0@.len() as nat);
                }
                assert forall|k: int| 0 <= k < ops.len() implies fresh_tree(
                    gm@,
                    #[trigger] ops[k] as nat,
                    g0@.len() as nat,
                ) by {
                    if k < nids@.len() {
                        assert(ops[k] == nids@[k]);
                        lemma_fresh_kept(&g1, &gm, nids@[k] as nat, g0@.len() as nat, g0@.len() as nat);
                    } else if k == nids@.len() {
                        assert(ops[k] == nbody);
                    } else {
                        assert(ops[k] == nsel.unwrap());
                    }
                }
                lemma_fresh_new_node(&gm, g, id, g0@.len() as nat);
                assert(terms(g@, nids@, id as nat) == terms(gm@, nids@, id as nat));
                assert(term(g@, nbody as nat) == term(gm@, nbody as nat));
                assert(term(g0@, node as nat) == Term::For(terms(g0@, ids@, node as nat), Box::new(term(g0@, body as nat)),
                    match sel { Some(s) => Some(Box::new(term(g0@, s as nat))), None => None }));
                if let Some(ns) = nsel {
                    assert(term(g@, ns as nat) == term(gm@, ns as nat));
                }
            }
            id
        },
        _ => {
            proof {
                assert(false);
            }
            0
        },
    }
}

fn duplicate_bus_op(g: &mut Graph, node: NodeId) -> (r: NodeId)
    requires
        old(g).wf(),
        node < old(g)@.len(),
        old(g)@[node as int] is BusOp,
    ensures
        final(g).wf(),
        final(g).extends(old(g)),
        old(g)@.len() <= r < final(g)@.len(),
        term(final(g)@, r as nat) == term(old(g)@, node as nat),
        fresh_tree(final(g)@, r as nat, old(g)@.len() as nat),
    decreases node, 1nat,
{
    let ghost g0 = *g;
    proof {
        assert(operands_below(g@[node as int], node as nat));
        lemma_extends_refl(g);
    }
    match &g.nodes[node] {
        Op::BusOp(b, k, args, latch) => {
            let (b, k, latch) = (*b, *k, *latch);
            let ids = copy_ids(args);
            let nids = duplicate_list(g, &ids, node);
            let ghost g1 = *g;
            proof {
                lemma_term_kept(&g0, &g1, latch as nat);
            }
            let nlatch = duplicate_node(g, latch);
            proof {
                lemma_extends_trans(&g0, &g1, g);
                assert forall|j: int| 0 <= j < nids@.len() implies term(
                    g@,
                    #[trigger] nids@[j] as nat,
                ) == term(g0@, ids@[j] as nat) by {
                    lemma_term_kept(&g1, g, nids@[j] as nat);
                }
                lemma_terms_ext(g@, nids@, g@.len(), g0@, ids@, node as nat);
            }
            let ghost gm = *g;
            let id = g.insert(Op::BusOp(b, k, nids, nlatch));
            proof {
                lemma_extends_trans(&g0, &gm, g);
                lemma_new_node_term(&gm, g, id);
                let ops = operands(g@[id as int]);
                lemma_extends_refl(&gm);
                lemma_fresh_kept(&gm, &gm, nlatch as nat, g1@.len() as nat, g0@.len() as nat);
                assert forall|j: int| 0 <= j < ops.len() implies fresh_tree(
                    gm@,
                    #[trigger] ops[j] as nat,
                    g0@.len() as nat,
                ) by {
                    if j < nids@.len() {
                        assert(ops[j] == nids@[j]);
                        lemma_fresh_kept(&g1, &gm, nids@[j] as nat, g0@.len() as nat, g0@.len() as nat);
                    } else {
                        assert(ops[j] == nlatch);
                    }
                }
                lemma_fresh_new_node(&gm, g, id, g0@.len() as nat);
                assert(terms(g@, nids@, id as nat) == terms(gm@, nids@, id as nat));
                assert(term(g@, nlatch as nat) == term(gm@, nlatch as nat));
                assert(term(g0@, node as nat) == Term::BusOp(b, k, terms(g0@, ids@, node as nat), Box::new(term(g0@, latch as nat))));
            }
            id
        },
        _ => {
            proof {
                assert(false);
            }
            0
        },
    }
}

fn duplicate_nothing(g: &mut Graph, node: NodeId) -> (r: NodeId)
    requires
        old(g).wf(),
        node < old(g)@.len(),
        old(g)@[node as int] is Nothing,
    ensures
        final(g).wf(),
        final(g).extends(old(g)),
        old(g)@.len() <= r < final(g)@.len(),
        term(final(g)@, r as nat) == term(old(g)@, node as nat),
        fresh_tree(final(g)@, r as nat, old(g)@.len() as nat),
    decreases node, 1nat,
{
    let ghost g0 = *g;
    proof {
        assert(operands_below(g@[node as int], node as nat));
        lemma_extends_refl(g);
    }
    match &g.nodes[node] {
        Op::Nothing => {
            let ghost gm = *g;
            let id = g.insert(Op::Nothing);
            proof {
                lemma_extends_trans(&g0, &gm, g);
                lemma_fresh_new_node(&gm, g, id, g0@.len() as nat);
            }
            id
        },
        _ => {
            proof {
                assert(false);
            }
            0
        },
    }
}

/// Copies two operands of `node`, one after the other.
fn duplicate_pair(g: &mut Graph, a: NodeId, b: NodeId, node: NodeId) -> (r: (NodeId, NodeId))
    requires
        old(g).wf(),
        a < node,
        b < node,
        node < old(g)@.len(),
    ensures
        final(g).wf(),
        final(g).extends(old(g)),
        old(g)@.len() <= r.0 < final(g)@.len(),
        old(g)@.len() <= r.1 < final(g)@.len(),
        term(final(g)@, r.0 as nat) == term(old(g)@, a as nat),
        term(final(g)@, r.1 as nat) == term(old(g)@, b as nat),
        fresh_tree(final(g)@, r.0 as nat, old(g)@.len() as nat),
        fresh_tree(final(g)@, r.1 as nat, old(g)@.len() as nat),
    decreases node, 0nat,
{
    let ghost g0 = *g;
    let na = duplicate_node(g, a);
    let ghost g1 = *g;
    let nb = duplicate_node(g, b);
    proof {
        lemma_term_kept(&g1, g, na as nat);
        lemma_term_kept(&g0, &g1, b as nat);
        lemma_extends_trans(&g0, &g1, g);
        lemma_fresh_kept(&g1, g, na as nat, g0@.len() as nat, g0@.len() as nat);
        lemma_extends_refl(g);
        lemma_fresh_kept(g, g, nb as nat, g1@.len() as nat, g0@.len() as nat);
    }
    (na, nb)
}

/// Copies each of the trees `ids`, all below `node`.
fn duplicate_list(g: &mut Graph, ids: &Vec<NodeId>, node: NodeId) -> (r: Vec<NodeId>)
    requires
        old(g).wf(),
        all_below(ids@, node as nat),
        node < old(g)@.len(),
    ensures
        final(g).wf(),
        final(g).extends(old(g)),
        r@.len() == ids@.len(),
        all_below(r@, final(g)@.len()),
        forall|k: int|
            0 <= k < r@.len() ==> old(g)@.len() <= #[trigger] r@[k] && term(final(g)@, r@[k] as nat)
                == term(old(g)@, ids@[k] as nat),
        forall|k: int|
            0 <= k < r@.len() ==> fresh_tree(final(g)@, #[trigger] r@[k] as nat, old(g)@.len() as nat),
    decreases node, 0nat,
{
    let ghost g0 = *g;
    proof {
        lemma_extends_refl(g);
    }
    let mut r: Vec<NodeId> = Vec::new();
    let mut i: usize = 0;
    while i < ids.len()
        invariant
            g.wf(),
            g.extends(&g0),
            g0.wf(),
            all_below(ids@, node as nat),
            node < g0@.len(),
            i <= ids@.len(),
            r@.len() == i,
            all_below(r@, g@.len()),
            forall|k: int|
                0 <= k < r@.len() ==> g0@.len() <= #[trigger] r@[k] && term(g@, r@[k] as nat)
                    == term(g0@, ids@[k] as nat),
            forall|k: int| 0 <= k < r@.len() ==> fresh_tree(g@, #[trigger] r@[k] as nat, g0@.len() as nat),
        decreases ids@.len() - i,
    {
        let ghost g1 = *g;
        let c = ids[i];
        proof {
            lemma_term_kept(&g0, &g1, c as nat);
        }
        let nc = duplicate_node(g, c);
        proof {
            lemma_extends_trans(&g0, &g1, g);
            assert forall|k: int| 0 <= k < r@.len() implies term(g@, #[trigger] r@[k] as nat)
                == term(g0@, ids@[k] as nat) by {
                lemma_term_kept(&g1, g, r@[k] as nat);
            }
            assert forall|k: int| 0 <= k < r@.len() implies fresh_tree(g@, #[trigger] r@[k] as nat, g0@.len() as nat) by {
                lemma_fresh_kept(&g1, g, r@[k] as nat, g0@.len() as nat, g0@.len() as nat);
            }
            lemma_extends_refl(g);
            lemma_fresh_kept(g, g, nc as nat, g1@.len() as nat, g0@.len() as nat);
        }
        r.push(nc);
        i = i + 1;
    }
    r
}

} // verus!
