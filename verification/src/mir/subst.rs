//! Copying one node while substituting: operands are looked up in a map from original
//! nodes to their copies, and parameters are replaced by given arguments. Applied to the nodes
//! of a tree from the leaves up, this copies the tree with arguments in place of parameters,
//! which is how calls are inlined and loops unrolled.
use vstd::prelude::*;
use std::collections::HashMap;
use crate::mir::graph::{all_below, copy_ids, Graph, NodeId, Op};
use crate::mir::term::{lemma_terms_index, term, terms, Term};
use crate::mir::duplicate::{lemma_extends_refl, lemma_extends_trans, lemma_term_kept};

verus! {

broadcast use vstd::std_specs::hash::group_hash_axioms;

/// `t` with every parameter `p` replaced by `ps[p]`.
pub open spec fn subst(t: Term, ps: Seq<Term>) -> Term
    decreases t,
{
    match t {
        Term::Parameter(p, _) => if p < ps.len() {
            ps[p as int]
        } else {
            t
        },
        Term::Add(l, r) => Term::Add(Box::new(subst(*l, ps)), Box::new(subst(*r, ps))),
        Term::Sub(l, r) => Term::Sub(Box::new(subst(*l, ps)), Box::new(subst(*r, ps))),
        Term::Mul(l, r) => Term::Mul(Box::new(subst(*l, ps)), Box::new(subst(*r, ps))),
        Term::Exp(l, r) => Term::Exp(Box::new(subst(*l, ps)), Box::new(subst(*r, ps))),
        Term::Enf(e) => Term::Enf(Box::new(subst(*e, ps))),
        Term::Boundary(k, e) => Term::Boundary(k, Box::new(subst(*e, ps))),
        Term::If(c, a, b) => Term::If(
            Box::new(subst(*c, ps)),
            Box::new(subst(*a, ps)),
            Box::new(subst(*b, ps)),
        ),
        Term::Fold(i, o, a) => Term::Fold(Box::new(subst(*i, ps)), o, Box::new(subst(*a, ps))),
        Term::Vector(ts) => Term::Vector(subst_all(ts, ps)),
        Term::Matrix(ts) => Term::Matrix(subst_all(ts, ps)),
        Term::Accessor(i, a, o) => Term::Accessor(Box::new(subst(*i, ps)), a, o),
        Term::For(its, body, sel) => Term::For(
            subst_all(its, ps),
            Box::new(subst(*body, ps)),
            match sel {
                Some(s) => Some(Box::new(subst(*s, ps))),
                None => None,
            },
        ),
        Term::Call(f, args) => Term::Call(f, subst_all(args, ps)),
        Term::BusOp(b, k, args, latch) => Term::BusOp(
            b,
            k,
            subst_all(args, ps),
            Box::new(subst(*latch, ps)),
        ),
        _ => t,
    }
}

/// `subst` applied to each tree of a list.
pub open spec fn subst_all(ts: Seq<Term>, ps: Seq<Term>) -> Seq<Term>
    decreases ts,
{
    if ts.len() == 0 {
        ts
    } else {
        subst_all(ts.drop_last(), ps).push(subst(ts.last(), ps))
    }
}

pub proof fn lemma_subst_all_index(ts: Seq<Term>, ps: Seq<Term>)
    ensures
        subst_all(ts, ps).len() == ts.len(),
        forall|k: int| 0 <= k < ts.len() ==> #[trigger] subst_all(ts, ps)[k] == subst(ts[k], ps),
    decreases ts.len(),
{
    if ts.len() > 0 {
        lemma_subst_all_index(ts.drop_last(), ps);
    }
}

/// The trees of the argument nodes.
pub open spec fn param_terms(g: Seq<Op>, args: Seq<NodeId>) -> Seq<Term> {
    Seq::new(args.len(), |k: int| term(g, args[k] as nat))
}

/// The nodes an operation refers to.
pub open spec fn operands(op: Op) -> Seq<NodeId> {
    match op {
        Op::Add(l, r) | Op::Sub(l, r) | Op::Mul(l, r) | Op::Exp(l, r) => seq![l, r],
        Op::Enf(e) | Op::Boundary(_, e) | Op::Accessor(e, _, _) => seq![e],
        Op::If(c, t, e) => seq![c, t, e],
        Op::Fold(i, _, a) => seq![i, a],
        Op::Vector(v) | Op::Matrix(v) | Op::Call(_, v) => v@,
        Op::For(its, body, sel) => match sel {
            Some(s) => its@.push(body).push(s),
            None => its@.push(body),
        },
        Op::BusOp(_, _, args, latch) => args@.push(latch),
        _ => Seq::empty(),
    }
}

/// `c` is a key of `m`, mapped to a node of `g`.
pub open spec fn key_in(g: Seq<Op>, m: Map<NodeId, NodeId>, c: NodeId) -> bool {
    &&& m.contains_key(c)
    &&& m[c] < g.len()
}

/// `c` has a copy in `m` whose tree is that of `c` with arguments `ps` substituted.
pub open spec fn has_copy(g: Seq<Op>, m: Map<NodeId, NodeId>, c: NodeId, ps: Seq<Term>) -> bool {
    &&& key_in(g, m, c)
    &&& term(g, m[c] as nat) == subst(term(g, c as nat), ps)
}

/// What copying `node` needs: a well-formed graph, stored arguments, enough of them for a
/// parameter, and each operand a key of the map.
pub open spec fn keys_ready(
    g: &Graph,
    m: Map<NodeId, NodeId>,
    node: NodeId,
    args: Seq<NodeId>,
) -> bool {
    &&& g.wf()
    &&& node < g@.len()
    &&& all_below(args, g@.len())
    &&& (g@[node as int] matches Op::Parameter(p, _) ==> p < args.len())
    &&& forall|k: int|
        0 <= k < operands(g@[node as int]).len() ==> key_in(
            g@,
            m,
            #[trigger] operands(g@[node as int])[k],
        )
}

/// The nodes `ids` looked up in `m`.
pub open spec fn mapped(ids: Seq<NodeId>, m: Map<NodeId, NodeId>) -> Seq<NodeId> {
    ids.map_values(|c: NodeId| m[c])
}

/// `new` is `old` with each operand `c` replaced by `m[c]`; every other field is kept.
pub open spec fn renamed(new: Op, old: Op, m: Map<NodeId, NodeId>) -> bool {
    match old {
        Op::Value(v) => new matches Op::Value(w) && crate::mir::term::value_term(w)
            == crate::mir::term::value_term(v),
        Op::Nothing => new == Op::Nothing,
        Op::Parameter(..) => false,
        Op::Add(l, r) => new == Op::Add(m[l], m[r]),
        Op::Sub(l, r) => new == Op::Sub(m[l], m[r]),
        Op::Mul(l, r) => new == Op::Mul(m[l], m[r]),
        Op::Exp(l, r) => new == Op::Exp(m[l], m[r]),
        Op::Enf(e) => new == Op::Enf(m[e]),
        Op::Boundary(k, e) => new == Op::Boundary(k, m[e]),
        Op::Accessor(i, a, o) => new == Op::Accessor(m[i], a, o),
        Op::If(c, t, e) => new == Op::If(m[c], m[t], m[e]),
        Op::Fold(i, o, a) => new == Op::Fold(m[i], o, m[a]),
        Op::Vector(v) => new matches Op::Vector(w) && w@ == mapped(v@, m),
        Op::Matrix(v) => new matches Op::Matrix(w) && w@ == mapped(v@, m),
        Op::Call(f, v) => new matches Op::Call(f2, w) && f2 == f && w@ == mapped(v@, m),
        Op::For(its, b, sel) => new matches Op::For(its2, b2, sel2) && its2@ == mapped(its@, m)
            && b2 == m[b] && sel2 == (match sel {
            Some(s) => Some(m[s]),
            None => None,
        }),
        Op::BusOp(b, k, args, latch) => new matches Op::BusOp(b2, k2, args2, l2) && b2 == b && k2
            == k && args2@ == mapped(args@, m) && l2 == m[latch],
    }
}

/// `after` is `before` with one new node `r` on top: `node` with its operands replaced by
/// their images in `m0`; `r` is recorded in the map as the copy of `node`.
pub open spec fn made_copy(
    before: &Graph,
    after: &Graph,
    m0: Map<NodeId, NodeId>,
    m1: Map<NodeId, NodeId>,
    node: NodeId,
    r: NodeId,
) -> bool {
    &&& after.wf()
    &&& after.extends(before)
    &&& r == before@.len()
    &&& after@.len() == before@.len() + 1
    &&& renamed(after@[r as int], before@[node as int], m0)
    &&& m1 == m0.insert(node, r)
}

/// What copying `node` needs: a well-formed graph, stored arguments, enough of them for a
/// parameter, and a copy of each operand.
pub open spec fn ready_to_copy(
    g: &Graph,
    m: Map<NodeId, NodeId>,
    node: NodeId,
    args: Seq<NodeId>,
) -> bool {
    &&& g.wf()
    &&& node < g@.len()
    &&& all_below(args, g@.len())
    &&& (g@[node as int] matches Op::Parameter(p, _) ==> p < args.len())
    &&& forall|k: int|
        0 <= k < operands(g@[node as int]).len() ==> has_copy(
            g@,
            m,
            #[trigger] operands(g@[node as int])[k],
            param_terms(g@, args),
        )
}

/// The copy of `c` recorded in the map.
fn copy_of(m: &HashMap<NodeId, NodeId>, c: NodeId) -> (r: NodeId)
    requires
        m@.contains_key(c),
    ensures
        r == m@[c],
{
    match m.get(&c) {
        Some(r) => *r,
        None => 0,
    }
}

/// The copies of the nodes `ids`, in order.
fn copies_of(m: &HashMap<NodeId, NodeId>, ids: &Vec<NodeId>) -> (r: Vec<NodeId>)
    requires
        forall|k: int| 0 <= k < ids@.len() ==> m@.contains_key(#[trigger] ids@[k]),
    ensures
        r@.len() == ids@.len(),
        forall|k: int| 0 <= k < ids@.len() ==> #[trigger] r@[k] == m@[ids@[k]],
{
    let mut r: Vec<NodeId> = Vec::new();
    let mut i: usize = 0;
    while i < ids.len()
        invariant
            i <= ids@.len(),
            r@.len() == i,
            forall|k: int| 0 <= k < ids@.len() ==> m@.contains_key(#[trigger] ids@[k]),
            forall|k: int| 0 <= k < i ==> #[trigger] r@[k] == m@[ids@[k]],
        decreases ids@.len() - i,
    {
        r.push(copy_of(m, ids[i]));
        i = i + 1;
    }
    r
}

/// `after` holds a copy of `node`, recorded as `r` in the map, whose tree is that of `node`
/// with the arguments substituted for parameters.
pub open spec fn copied(
    before: &Graph,
    after: &Graph,
    m0: Map<NodeId, NodeId>,
    m1: Map<NodeId, NodeId>,
    node: NodeId,
    r: NodeId,
    args: Seq<NodeId>,
) -> bool {
    &&& after.wf()
    &&& after.extends(before)
    &&& r < after@.len()
    &&& m1 == m0.insert(node, r)
    &&& term(after@, r as nat) == subst(term(before@, node as nat), param_terms(before@, args))
}

/// The operands of a node ready to be copied have copies.
proof fn lemma_ready(g: &Graph, m: Map<NodeId, NodeId>, node: NodeId, args: Seq<NodeId>)
    requires
        ready_to_copy(g, m, node, args),
    ensures
        ({
            let ps = param_terms(g@, args);
            match g@[node as int] {
                Op::Add(l, r) | Op::Sub(l, r) | Op::Mul(l, r) | Op::Exp(l, r) => has_copy(
                    g@,
                    m,
                    l,
                    ps,
                ) && has_copy(g@, m, r, ps),
                Op::Enf(e) | Op::Boundary(_, e) | Op::Accessor(e, _, _) => has_copy(g@, m, e, ps),
                Op::If(c, t, e) => has_copy(g@, m, c, ps) && has_copy(g@, m, t, ps) && has_copy(
                    g@,
                    m,
                    e,
                    ps,
                ),
                Op::Fold(i, _, a) => has_copy(g@, m, i, ps) && has_copy(g@, m, a, ps),
                Op::Vector(v) => forall|k: int|
                    0 <= k < v@.len() ==> has_copy(g@, m, #[trigger] v@[k], ps),
                Op::Matrix(v) => forall|k: int|
                    0 <= k < v@.len() ==> has_copy(g@, m, #[trigger] v@[k], ps),
                Op::Call(_, v) => forall|k: int|
                    0 <= k < v@.len() ==> has_copy(g@, m, #[trigger] v@[k], ps),
                Op::For(its, body, sel) => (forall|k: int|
                    0 <= k < its@.len() ==> has_copy(g@, m, #[trigger] its@[k], ps)) && has_copy(
                    g@,
                    m,
                    body,
                    ps,
                ) && (sel matches Some(s) ==> has_copy(g@, m, s, ps)),
                Op::BusOp(_, _, v, latch) => (forall|k: int|
                    0 <= k < v@.len() ==> has_copy(g@, m, #[trigger] v@[k], ps)) && has_copy(
                    g@,
                    m,
                    latch,
                    ps,
                ),
                _ => true,
            }
        }),
{
    let op = g@[node as int];
    let ops = operands(op);
    assert(forall|k: int| 0 <= k < ops.len() ==> has_copy(g@, m, #[trigger] ops[k], param_terms(g@, args)));
    match op {
        Op::Add(l, r) | Op::Sub(l, r) | Op::Mul(l, r) | Op::Exp(l, r) | Op::Fold(l, _, r) => {
            assert(ops[0] == l);
            assert(ops[1] == r);
        },
        Op::If(c, t, e) => {
            assert(ops[0] == c);
            assert(ops[1] == t);
            assert(ops[2] == e);
        },
        Op::Enf(e) | Op::Boundary(_, e) | Op::Accessor(e, _, _) => {
            assert(ops[0] == e);
        },
        Op::For(its, body, sel) => {
            assert forall|k: int| 0 <= k < its@.len() implies has_copy(
                g@,
                m,
                #[trigger] its@[k],
                param_terms(g@, args),
            ) by {
                assert(ops[k] == its@[k]);
            }
            assert(ops[its@.len() as int] == body);
            if let Some(s) = sel {
                assert(ops[its@.len() as int + 1] == s);
            }
        },
        Op::BusOp(_, _, v, latch) => {
            assert forall|k: int| 0 <= k < v@.len() implies has_copy(
                g@,
                m,
                #[trigger] v@[k],
                param_terms(g@, args),
            ) by {
                assert(ops[k] == v@[k]);
            }
            assert(ops[v@.len() as int] == latch);
        },
        _ => {},
    }
}

/// The operands of a node ready to be copied are keys of the map.
proof fn lemma_keys(g: &Graph, m: Map<NodeId, NodeId>, node: NodeId, args: Seq<NodeId>)
    requires
        keys_ready(g, m, node, args),
    ensures
        ({
            match g@[node as int] {
                Op::Add(l, r) | Op::Sub(l, r) | Op::Mul(l, r) | Op::Exp(l, r) => key_in(g@, m, l) && key_in(g@, m, r),
                Op::Enf(e) | Op::Boundary(_, e) | Op::Accessor(e, _, _) => key_in(g@, m, e),
                Op::If(c, t, e) => key_in(g@, m, c) && key_in(g@, m, t) && key_in(g@, m, e),
                Op::Fold(i, _, a) => key_in(g@, m, i) && key_in(g@, m, a),
                Op::Vector(v) => forall|k: int|
                    0 <= k < v@.len() ==> key_in(g@, m, #[trigger] v@[k]),
                Op::Matrix(v) => forall|k: int|
                    0 <= k < v@.len() ==> key_in(g@, m, #[trigger] v@[k]),
                Op::Call(_, v) => forall|k: int|
                    0 <= k < v@.len() ==> key_in(g@, m, #[trigger] v@[k]),
                Op::For(its, body, sel) => (forall|k: int|
                    0 <= k < its@.len() ==> key_in(g@, m, #[trigger] its@[k])) && key_in(g@, m, body) && (sel matches Some(s) ==> key_in(g@, m, s)),
                Op::BusOp(_, _, v, latch) => (forall|k: int|
                    0 <= k < v@.len() ==> key_in(g@, m, #[trigger] v@[k])) && key_in(g@, m, latch),
                _ => true,
            }
        }),
{
    let op = g@[node as int];
    let ops = operands(op);
    assert(forall|k: int| 0 <= k < ops.len() ==> key_in(g@, m, #[trigger] ops[k]));
    match op {
        Op::Add(l, r) | Op::Sub(l, r) | Op::Mul(l, r) | Op::Exp(l, r) | Op::Fold(l, _, r) => {
            assert(ops[0] == l);
            assert(ops[1] == r);
        },
        Op::If(c, t, e) => {
            assert(ops[0] == c);
            assert(ops[1] == t);
            assert(ops[2] == e);
        },
        Op::Enf(e) | Op::Boundary(_, e) | Op::Accessor(e, _, _) => {
            assert(ops[0] == e);
        },
        Op::For(its, body, sel) => {
            assert forall|k: int| 0 <= k < its@.len() implies key_in(g@, m, #[trigger] its@[k]) by {
                assert(ops[k] == its@[k]);
            }
            assert(ops[its@.len() as int] == body);
            if let Some(s) = sel {
                assert(ops[its@.len() as int + 1] == s);
            }
        },
        Op::BusOp(_, _, v, latch) => {
            assert forall|k: int| 0 <= k < v@.len() implies key_in(g@, m, #[trigger] v@[k]) by {
                assert(ops[k] == v@[k]);
            }
            assert(ops[v@.len() as int] == latch);
        },
        _ => {},
    }
}

/// A list of copies has, as trees, the substituted trees of the originals.
proof fn lemma_copies_terms(
    g0: &Graph,
    g: &Graph,
    m: Map<NodeId, NodeId>,
    ids: Seq<NodeId>,
    nids: Seq<NodeId>,
    node: NodeId,
    args: Seq<NodeId>,
)
    requires
        g.extends(g0),
        node < g0@.len(),
        all_below(ids, node as nat),
        nids.len() == ids.len(),
        forall|k: int| 0 <= k < ids.len() ==> #[trigger] nids[k] == m[ids[k]],
        forall|k: int| 0 <= k < ids.len() ==> has_copy(g0@, m, #[trigger] ids[k], param_terms(g0@, args)),
    ensures
        all_below(nids, g0@.len()),
        terms(g@, nids, g0@.len()) == subst_all(terms(g0@, ids, node as nat), param_terms(g0@, args)),
{
    let ps = param_terms(g0@, args);
    assert forall|k: int| 0 <= k < nids.len() implies (#[trigger] nids[k]) < g0@.len() by {
        assert(has_copy(g0@, m, ids[k], ps));
    }
    lemma_terms_index(g@, nids, g0@.len());
    lemma_terms_index(g0@, ids, node as nat);
    lemma_subst_all_index(terms(g0@, ids, node as nat), ps);
    assert forall|k: int| 0 <= k < nids.len() implies #[trigger] terms(g@, nids, g0@.len())[k]
        == subst_all(terms(g0@, ids, node as nat), ps)[k] by {
        assert(has_copy(g0@, m, ids[k], ps));
        lemma_term_kept(g0, g, nids[k] as nat);
    }
    assert(terms(g@, nids, g0@.len()) =~= subst_all(terms(g0@, ids, node as nat), ps));
}


/// Copies `node` on top of the images of its operands: a new node of the same kind and fields
/// is added whose operands are the operands' images in `current_replace_map`, which must hold
/// each of them, and it is recorded there as the image of `node`. A parameter is not copied:
/// its image is the argument node at its position. Where each operand's image is a copy of it
/// with the arguments substituted, so is the image of `node`.
pub fn duplicate_node_or_replace(
    current_replace_map: &mut HashMap<NodeId, NodeId>,
    g: &mut Graph,
    node: NodeId,
    replace_parameter_list: &Vec<NodeId>,
)
    requires
        keys_ready(old(g), old(current_replace_map)@, node, replace_parameter_list@),
    ensures
        final(g).wf(),
        final(g).extends(old(g)),
        old(g)@[node as int] matches Op::Parameter(p, _) ==> {
            &&& final(g)@ == old(g)@
            &&& final(current_replace_map)@ == old(current_replace_map)@.insert(
                node,
                replace_parameter_list@[p as int],
            )
        },
        !(old(g)@[node as int] is Parameter) ==> made_copy(
            old(g),
            final(g),
            old(current_replace_map)@,
            final(current_replace_map)@,
            node,
            old(g)@.len() as NodeId,
        ),
        ready_to_copy(old(g), old(current_replace_map)@, node, replace_parameter_list@) ==> copied(
            old(g),
            final(g),
            old(current_replace_map)@,
            final(current_replace_map)@,
            node,
            final(current_replace_map)@[node],
            replace_parameter_list@,
        ),
{
    let _r = match &g.nodes[node] {
        Op::Value(v) => {
            let v = crate::mir::graph::copy_value(v);
            let ghost g0 = *g;
            let id = g.insert(Op::Value(v));
            current_replace_map.insert(node, id);
            id
        },
        Op::Parameter(p, _) => {
            let p = *p;
            let ghost g0 = *g;
            let id = replace_parameter_list[p];
            current_replace_map.insert(node, id);
            proof {
                lemma_extends_refl(g);
            }
            id
        },
        Op::Nothing => {
            let ghost g0 = *g;
            let id = g.insert(Op::Nothing);
            current_replace_map.insert(node, id);
            id
        },
        Op::Add(..) => replace_add(current_replace_map, g, node, Ghost(replace_parameter_list@)),
        Op::Sub(..) => replace_sub(current_replace_map, g, node, Ghost(replace_parameter_list@)),
        Op::Mul(..) => replace_mul(current_replace_map, g, node, Ghost(replace_parameter_list@)),
        Op::Exp(..) => replace_exp(current_replace_map, g, node, Ghost(replace_parameter_list@)),
        Op::Enf(..) => replace_enf(current_replace_map, g, node, Ghost(replace_parameter_list@)),
        Op::Boundary(..) => replace_boundary(current_replace_map, g, node, Ghost(replace_parameter_list@)),
        Op::Accessor(..) => replace_accessor(current_replace_map, g, node, Ghost(replace_parameter_list@)),
        Op::If(..) => replace_if_op(current_replace_map, g, node, Ghost(replace_parameter_list@)),
        Op::Fold(..) => replace_fold(current_replace_map, g, node, Ghost(replace_parameter_list@)),
        Op::Vector(..) => replace_vector(current_replace_map, g, node, Ghost(replace_parameter_list@)),
        Op::Matrix(..) => replace_matrix(current_replace_map, g, node, Ghost(replace_parameter_list@)),
        Op::Call(..) => replace_call(current_replace_map, g, node, Ghost(replace_parameter_list@)),
        Op::For(..) => replace_for_op(current_replace_map, g, node, Ghost(replace_parameter_list@)),
        Op::BusOp(..) => replace_bus_op(current_replace_map, g, node, Ghost(replace_parameter_list@)),
    };
}

fn replace_add(
    m: &mut HashMap<NodeId, NodeId>,
    g: &mut Graph,
    node: NodeId,
    args: Ghost<Seq<NodeId>>,
) -> (r: NodeId)
    requires
        keys_ready(old(g), old(m)@, node, args@),
        old(g)@[node as int] is Add,
    ensures
        made_copy(old(g), final(g), old(m)@, final(m)@, node, r),
        ready_to_copy(old(g), old(m)@, node, args@) ==> copied(
            old(g),
            final(g),
            old(m)@,
            final(m)@,
            node,
            r,
            args@,
        ),
{
    let ghost g0 = *g;
    proof {
        lemma_extends_refl(g);
        lemma_keys(g, m@, node, args@);
        if ready_to_copy(g, m@, node, args@) {
            lemma_ready(g, m@, node, args@);
        }
    }
    match &g.nodes[node] {
        Op::Add(l, r) => {
            let (l, r) = (*l, *r);
            let (nl, nr) = (copy_of(m, l), copy_of(m, r));
            let ghost gm = *g;
            let id = g.insert(Op::Add(nl, nr));
            m.insert(node, id);
            proof {
                lemma_extends_trans(&g0, &gm, g);
                assert(term(g@, nl as nat) == term(gm@, nl as nat)) by {
                    lemma_term_kept(&gm, g, nl as nat);
                }
                assert(term(g@, nr as nat) == term(gm@, nr as nat)) by {
                    lemma_term_kept(&gm, g, nr as nat);
                }
            }
            id
        },
        _ => {
            proof {
                assert(false);
            }
            0
        },
    }
}

fn replace_sub(
    m: &mut HashMap<NodeId, NodeId>,
    g: &mut Graph,
    node: NodeId,
    args: Ghost<Seq<NodeId>>,
) -> (r: NodeId)
    requires
        keys_ready(old(g), old(m)@, node, args@),
        old(g)@[node as int] is Sub,
    ensures
        made_copy(old(g), final(g), old(m)@, final(m)@, node, r),
        ready_to_copy(old(g), old(m)@, node, args@) ==> copied(
            old(g),
            final(g),
            old(m)@,
            final(m)@,
            node,
            r,
            args@,
        ),
{
    let ghost g0 = *g;
    proof {
        lemma_extends_refl(g);
        lemma_keys(g, m@, node, args@);
        if ready_to_copy(g, m@, node, args@) {
            lemma_ready(g, m@, node, args@);
        }
    }
    match &g.nodes[node] {
        Op::Sub(l, r) => {
            let (l, r) = (*l, *r);
            let (nl, nr) = (copy_of(m, l), copy_of(m, r));
            let ghost gm = *g;
            let id = g.insert(Op::Sub(nl, nr));
            m.insert(node, id);
            proof {
                lemma_extends_trans(&g0, &gm, g);
                assert(term(g@, nl as nat) == term(gm@, nl as nat)) by {
                    lemma_term_kept(&gm, g, nl as nat);
                }
                assert(term(g@, nr as nat) == term(gm@, nr as nat)) by {
                    lemma_term_kept(&gm, g, nr as nat);
                }
            }
            id
        },
        _ => {
            proof {
                assert(false);
            }
            0
        },
    }
}

fn replace_mul(
    m: &mut HashMap<NodeId, NodeId>,
    g: &mut Graph,
    node: NodeId,
    args: Ghost<Seq<NodeId>>,
) -> (r: NodeId)
    requires
        keys_ready(old(g), old(m)@, node, args@),
        old(g)@[node as int] is Mul,
    ensures
        made_copy(old(g), final(g), old(m)@, final(m)@, node, r),
        ready_to_copy(old(g), old(m)@, node, args@) ==> copied(
            old(g),
            final(g),
            old(m)@,
            final(m)@,
            node,
            r,
            args@,
        ),
{
    let ghost g0 = *g;
    proof {
        lemma_extends_refl(g);
        lemma_keys(g, m@, node, args@);
        if ready_to_copy(g, m@, node, args@) {
            lemma_ready(g, m@, node, args@);
        }
    }
    match &g.nodes[node] {
        Op::Mul(l, r) => {
            let (l, r) = (*l, *r);
            let (nl, nr) = (copy_of(m, l), copy_of(m, r));
            let ghost gm = *g;
            let id = g.insert(Op::Mul(nl, nr));
            m.insert(node, id);
            proof {
                lemma_extends_trans(&g0, &gm, g);
                assert(term(g@, nl as nat) == term(gm@, nl as nat)) by {
                    lemma_term_kept(&gm, g, nl as nat);
                }
                assert(term(g@, nr as nat) == term(gm@, nr as nat)) by {
                    lemma_term_kept(&gm, g, nr as nat);
                }
            }
            id
        },
        _ => {
            proof {
                assert(false);
            }
            0
        },
    }
}

fn replace_exp(
    m: &mut HashMap<NodeId, NodeId>,
    g: &mut Graph,
    node: NodeId,
    args: Ghost<Seq<NodeId>>,
) -> (r: NodeId)
    requires
        keys_ready(old(g), old(m)@, node, args@),
        old(g)@[node as int] is Exp,
    ensures
        made_copy(old(g), final(g), old(m)@, final(m)@, node, r),
        ready_to_copy(old(g), old(m)@, node, args@) ==> copied(
            old(g),
            final(g),
            old(m)@,
            final(m)@,
            node,
            r,
            args@,
        ),
{
    let ghost g0 = *g;
    proof {
        lemma_extends_refl(g);
        lemma_keys(g, m@, node, args@);
        if ready_to_copy(g, m@, node, args@) {
            lemma_ready(g, m@, node, args@);
        }
    }
    match &g.nodes[node] {
        Op::Exp(l, r) => {
            let (l, r) = (*l, *r);
            let (nl, nr) = (copy_of(m, l), copy_of(m, r));
            let ghost gm = *g;
            let id = g.insert(Op::Exp(nl, nr));
            m.insert(node, id);
            proof {
                lemma_extends_trans(&g0, &gm, g);
                assert(term(g@, nl as nat) == term(gm@, nl as nat)) by {
                    lemma_term_kept(&gm, g, nl as nat);
                }
                assert(term(g@, nr as nat) == term(gm@, nr as nat)) by {
                    lemma_term_kept(&gm, g, nr as nat);
                }
            }
            id
        },
        _ => {
            proof {
                assert(false);
            }
            0
        },
    }
}

fn replace_enf(
    m: &mut HashMap<NodeId, NodeId>,
    g: &mut Graph,
    node: NodeId,
    args: Ghost<Seq<NodeId>>,
) -> (r: NodeId)
    requires
        keys_ready(old(g), old(m)@, node, args@),
        old(g)@[node as int] is Enf,
    ensures
        made_copy(old(g), final(g), old(m)@, final(m)@, node, r),
        ready_to_copy(old(g), old(m)@, node, args@) ==> copied(
            old(g),
            final(g),
            old(m)@,
            final(m)@,
            node,
            r,
            args@,
        ),
{
    let ghost g0 = *g;
    proof {
        lemma_extends_refl(g);
        lemma_keys(g, m@, node, args@);
        if ready_to_copy(g, m@, node, args@) {
            lemma_ready(g, m@, node, args@);
        }
    }
    match &g.nodes[node] {
        Op::Enf(e) => {
            let e = *e;
            let ne = copy_of(m, e);
            let ghost gm = *g;
            let id = g.insert(Op::Enf(ne));
            m.insert(node, id);
            proof {
                lemma_extends_trans(&g0, &gm, g);
                assert(term(g@, ne as nat) == term(gm@, ne as nat)) by {
                    lemma_term_kept(&gm, g, ne as nat);
                }
            }
            id
        },
        _ => {
            proof {
                assert(false);
            }
            0
        },
    }
}

fn replace_boundary(
    m: &mut HashMap<NodeId, NodeId>,
    g: &mut Graph,
    node: NodeId,
    args: Ghost<Seq<NodeId>>,
) -> (r: NodeId)
    requires
        keys_ready(old(g), old(m)@, node, args@),
        old(g)@[node as int] is Boundary,
    ensures
        made_copy(old(g), final(g), old(m)@, final(m)@, node, r),
        ready_to_copy(old(g), old(m)@, node, args@) ==> copied(
            old(g),
            final(g),
            old(m)@,
            final(m)@,
            node,
            r,
            args@,
        ),
{
    let ghost g0 = *g;
    proof {
        lemma_extends_refl(g);
        lemma_keys(g, m@, node, args@);
        if ready_to_copy(g, m@, node, args@) {
            lemma_ready(g, m@, node, args@);
        }
    }
    match &g.nodes[node] {
        Op::Boundary(k, e) => {
            let (k, e) = (*k, *e);
            let ne = copy_of(m, e);
            let ghost gm = *g;
            let id = g.insert(Op::Boundary(k, ne));
            m.insert(node, id);
            proof {
                lemma_extends_trans(&g0, &gm, g);
                assert(term(g@, ne as nat) == term(gm@, ne as nat)) by {
                    lemma_term_kept(&gm, g, ne as nat);
                }
            }
            id
        },
        _ => {
            proof {
                assert(false);
            }
            0
        },
    }
}

fn replace_accessor(
    m: &mut HashMap<NodeId, NodeId>,
    g: &mut Graph,
    node: NodeId,
    args: Ghost<Seq<NodeId>>,
) -> (r: NodeId)
    requires
        keys_ready(old(g), old(m)@, node, args@),
        old(g)@[node as int] is Accessor,
    ensures
        made_copy(old(g), final(g), old(m)@, final(m)@, node, r),
        ready_to_copy(old(g), old(m)@, node, args@) ==> copied(
            old(g),
            final(g),
            old(m)@,
            final(m)@,
            node,
            r,
            args@,
        ),
{
    let ghost g0 = *g;
    proof {
        lemma_extends_refl(g);
        lemma_keys(g, m@, node, args@);
        if ready_to_copy(g, m@, node, args@) {
            lemma_ready(g, m@, node, args@);
        }
    }
    match &g.nodes[node] {
        Op::Accessor(i, a, o) => {
            let (i, a, o) = (*i, *a, *o);
            let ni = copy_of(m, i);
            let ghost gm = *g;
            let id = g.insert(Op::Accessor(ni, a, o));
            m.insert(node, id);
            proof {
                lemma_extends_trans(&g0, &gm, g);
                assert(term(g@, ni as nat) == term(gm@, ni as nat)) by {
                    lemma_term_kept(&gm, g, ni as nat);
                }
            }
            id
        },
        _ => {
            proof {
                assert(false);
            }
            0
        },
    }
}

fn replace_if_op(
    m: &mut HashMap<NodeId, NodeId>,
    g: &mut Graph,
    node: NodeId,
    args: Ghost<Seq<NodeId>>,
) -> (r: NodeId)
    requires
        keys_ready(old(g), old(m)@, node, args@),
        old(g)@[node as int] is If,
    ensures
        made_copy(old(g), final(g), old(m)@, final(m)@, node, r),
        ready_to_copy(old(g), old(m)@, node, args@) ==> copied(
            old(g),
            final(g),
            old(m)@,
            final(m)@,
            node,
            r,
            args@,
        ),
{
    let ghost g0 = *g;
    proof {
        lemma_extends_refl(g);
        lemma_keys(g, m@, node, args@);
        if ready_to_copy(g, m@, node, args@) {
            lemma_ready(g, m@, node, args@);
        }
    }
    match &g.nodes[node] {
        Op::If(c, t, e) => {
            let (c, t, e) = (*c, *t, *e);
            let (nc, nt, ne) = (copy_of(m, c), copy_of(m, t), copy_of(m, e));
            let ghost gm = *g;
            let id = g.insert(Op::If(nc, nt, ne));
            m.insert(node, id);
            proof {
                lemma_extends_trans(&g0, &gm, g);
                assert(term(g@, nc as nat) == term(gm@, nc as nat)) by {
                    lemma_term_kept(&gm, g, nc as nat);
                }
                assert(term(g@, nt as nat) == term(gm@, nt as nat)) by {
                    lemma_term_kept(&gm, g, nt as nat);
                }
                assert(term(g@, ne as nat) == term(gm@, ne as nat)) by {
                    lemma_term_kept(&gm, g, ne as nat);
                }
            }
            id
        },
        _ => {
            proof {
                assert(false);
            }
            0
        },
    }
}

fn replace_fold(
    m: &mut HashMap<NodeId, NodeId>,
    g: &mut Graph,
    node: NodeId,
    args: Ghost<Seq<NodeId>>,
) -> (r: NodeId)
    requires
        keys_ready(old(g), old(m)@, node, args@),
        old(g)@[node as int] is Fold,
    ensures
        made_copy(old(g), final(g), old(m)@, final(m)@, node, r),
        ready_to_copy(old(g), old(m)@, node, args@) ==> copied(
            old(g),
            final(g),
            old(m)@,
            final(m)@,
            node,
            r,
            args@,
        ),
{
    let ghost g0 = *g;
    proof {
        lemma_extends_refl(g);
        lemma_keys(g, m@, node, args@);
        if ready_to_copy(g, m@, node, args@) {
            lemma_ready(g, m@, node, args@);
        }
    }
    match &g.nodes[node] {
        Op::Fold(i, o, a) => {
            let (i, o, a) = (*i, *o, *a);
            let (ni, na) = (copy_of(m, i), copy_of(m, a));
            let ghost gm = *g;
            let id = g.insert(Op::Fold(ni, o, na));
            m.insert(node, id);
            proof {
                lemma_extends_trans(&g0, &gm, g);
                assert(term(g@, ni as nat) == term(gm@, ni as nat)) by {
                    lemma_term_kept(&gm, g, ni as nat);
                }
                assert(term(g@, na as nat) == term(gm@, na as nat)) by {
                    lemma_term_kept(&gm, g, na as nat);
                }
            }
            id
        },
        _ => {
            proof {
                assert(false);
            }
            0
        },
    }
}

fn replace_vector(
    m: &mut HashMap<NodeId, NodeId>,
    g: &mut Graph,
    node: NodeId,
    args: Ghost<Seq<NodeId>>,
) -> (r: NodeId)
    requires
        keys_ready(old(g), old(m)@, node, args@),
        old(g)@[node as int] is Vector,
    ensures
        made_copy(old(g), final(g), old(m)@, final(m)@, node, r),
        ready_to_copy(old(g), old(m)@, node, args@) ==> copied(
            old(g),
            final(g),
            old(m)@,
            final(m)@,
            node,
            r,
            args@,
        ),
{
    let ghost g0 = *g;
    proof {
        lemma_extends_refl(g);
        lemma_keys(g, m@, node, args@);
        if ready_to_copy(g, m@, node, args@) {
            lemma_ready(g, m@, node, args@);
        }
    }
    match &g.nodes[node] {
        Op::Vector(v) => {
            let ids = copy_ids(v);
            proof {
                assert forall|k: int| 0 <= k < ids@.len() implies key_in(g@, m@, #[trigger] ids@[k]) by {
                    assert(ids@[k] == v@[k]);
                }
                if ready_to_copy(g, m@, node, args@) {
                    assert forall|k: int| 0 <= k < ids@.len() implies has_copy(
                        g@,
                        m@,
                        #[trigger] ids@[k],
                        param_terms(g@, args@),
                    ) by {
                        assert(ids@[k] == v@[k]);
                    }
                }
            }
            let nids = copies_of(m, &ids);
            proof {
                assert forall|k: int| 0 <= k < nids@.len() implies (#[trigger] nids@[k]) < g@.len() by {
                    assert(key_in(g@, m@, ids@[k]));
                }
            }
            let ghost gm = *g;
            let id = g.insert(Op::Vector(nids));
            m.insert(node, id);
            proof {
                lemma_extends_trans(&g0, &gm, g);
                assert(nids@ =~= mapped(ids@, old(m)@));
                if ready_to_copy(&g0, old(m)@, node, args@) {
                    lemma_copies_terms(&gm, g, old(m)@, ids@, nids@, node, args@);
                }
            }
            id
        },
        _ => {
            proof {
                assert(false);
            }
            0
        },
    }
}

fn replace_matrix(
    m: &mut HashMap<NodeId, NodeId>,
    g: &mut Graph,
    node: NodeId,
    args: Ghost<Seq<NodeId>>,
) -> (r: NodeId)
    requires
        keys_ready(old(g), old(m)@, node, args@),
        old(g)@[node as int] is Matrix,
    ensures
        made_copy(old(g), final(g), old(m)@, final(m)@, node, r),
        ready_to_copy(old(g), old(m)@, node, args@) ==> copied(
            old(g),
            final(g),
            old(m)@,
            final(m)@,
            node,
            r,
            args@,
        ),
{
    let ghost g0 = *g;
    proof {
        lemma_extends_refl(g);
        lemma_keys(g, m@, node, args@);
        if ready_to_copy(g, m@, node, args@) {
            lemma_ready(g, m@, node, args@);
        }
    }
    match &g.nodes[node] {
        Op::Matrix(v) => {
            let ids = copy_ids(v);
            proof {
                assert forall|k: int| 0 <= k < ids@.len() implies key_in(g@, m@, #[trigger] ids@[k]) by {
                    assert(ids@[k] == v@[k]);
                }
                if ready_to_copy(g, m@, node, args@) {
                    assert forall|k: int| 0 <= k < ids@.len() implies has_copy(
                        g@,
                        m@,
                        #[trigger] ids@[k],
                        param_terms(g@, args@),
                    ) by {
                        assert(ids@[k] == v@[k]);
                    }
                }
            }
            let nids = copies_of(m, &ids);
            proof {
                assert forall|k: int| 0 <= k < nids@.len() implies (#[trigger] nids@[k]) < g@.len() by {
                    assert(key_in(g@, m@, ids@[k]));
                }
            }
            let ghost gm = *g;
            let id = g.insert(Op::Matrix(nids));
            m.insert(node, id);
            proof {
                lemma_extends_trans(&g0, &gm, g);
                assert(nids@ =~= mapped(ids@, old(m)@));
                if ready_to_copy(&g0, old(m)@, node, args@) {
                    lemma_copies_terms(&gm, g, old(m)@, ids@, nids@, node, args@);
                }
            }
            id
        },
        _ => {
            proof {
                assert(false);
            }
            0
        },
    }
}

fn replace_call(
    m: &mut HashMap<NodeId, NodeId>,
    g: &mut Graph,
    node: NodeId,
    args: Ghost<Seq<NodeId>>,
) -> (r: NodeId)
    requires
        keys_ready(old(g), old(m)@, node, args@),
        old(g)@[node as int] is Call,
    ensures
        made_copy(old(g), final(g), old(m)@, final(m)@, node, r),
        ready_to_copy(old(g), old(m)@, node, args@) ==> copied(
            old(g),
            final(g),
            old(m)@,
            final(m)@,
            node,
            r,
            args@,
        ),
{
    let ghost g0 = *g;
    proof {
        lemma_extends_refl(g);
        lemma_keys(g, m@, node, args@);
        if ready_to_copy(g, m@, node, args@) {
            lemma_ready(g, m@, node, args@);
        }
    }
    match &g.nodes[node] {
        Op::Call(f, v) => {
            let f = *f;
            let ids = copy_ids(v);
            proof {
                assert forall|k: int| 0 <= k < ids@.len() implies key_in(g@, m@, #[trigger] ids@[k]) by {
                    assert(ids@[k] == v@[k]);
                }
                if ready_to_copy(g, m@, node, args@) {
                    assert forall|k: int| 0 <= k < ids@.len() implies has_copy(
                        g@,
                        m@,
                        #[trigger] ids@[k],
                        param_terms(g@, args@),
                    ) by {
                        assert(ids@[k] == v@[k]);
                    }
                }
            }
            let nids = copies_of(m, &ids);
            proof {
                assert forall|k: int| 0 <= k < nids@.len() implies (#[trigger] nids@[k]) < g@.len() by {
                    assert(key_in(g@, m@, ids@[k]));
                }
            }
            let ghost gm = *g;
            let id = g.insert(Op::Call(f, nids));
            m.insert(node, id);
            proof {
                lemma_extends_trans(&g0, &gm, g);
                assert(nids@ =~= mapped(ids@, old(m)@));
                if ready_to_copy(&g0, old(m)@, node, args@) {
                    lemma_copies_terms(&gm, g, old(m)@, ids@, nids@, node, args@);
                }
            }
            id
        },
        _ => {
            proof {
                assert(false);
            }
            0
        },
    }
}

fn replace_for_op(
    m: &mut HashMap<NodeId, NodeId>,
    g: &mut Graph,
    node: NodeId,
    args: Ghost<Seq<NodeId>>,
) -> (r: NodeId)
    requires
        keys_ready(old(g), old(m)@, node, args@),
        old(g)@[node as int] is For,
    ensures
        made_copy(old(g), final(g), old(m)@, final(m)@, node, r),
        ready_to_copy(old(g), old(m)@, node, args@) ==> copied(
            old(g),
            final(g),
            old(m)@,
            final(m)@,
            node,
            r,
            args@,
        ),
{
    let ghost g0 = *g;
    proof {
        lemma_extends_refl(g);
        lemma_keys(g, m@, node, args@);
        if ready_to_copy(g, m@, node, args@) {
            lemma_ready(g, m@, node, args@);
        }
    }
    match &g.nodes[node] {
        Op::For(its, body, sel) => {
            let (body, sel) = (*body, *sel);
            let ids = copy_ids(its);
            proof {
                assert forall|k: int| 0 <= k < ids@.len() implies key_in(g@, m@, #[trigger] ids@[k]) by {
                    assert(ids@[k] == its@[k]);
                }
                if ready_to_copy(g, m@, node, args@) {
                    assert forall|k: int| 0 <= k < ids@.len() implies has_copy(
                        g@,
                        m@,
                        #[trigger] ids@[k],
                        param_terms(g@, args@),
                    ) by {
                        assert(ids@[k] == its@[k]);
                    }
                }
            }
            let nids = copies_of(m, &ids);
            proof {
                assert forall|k: int| 0 <= k < nids@.len() implies (#[trigger] nids@[k]) < g@.len() by {
                    assert(key_in(g@, m@, ids@[k]));
                }
            }
            let nbody = copy_of(m, body);
            let nsel = match sel {
                Some(s) => Some(copy_of(m, s)),
                None => None,
            };
            let ghost gm = *g;
            let id = g.insert(Op::For(nids, nbody, nsel));
            m.insert(node, id);
            proof {
                lemma_extends_trans(&g0, &gm, g);
                assert(term(g@, nbody as nat) == term(gm@, nbody as nat)) by {
                    lemma_term_kept(&gm, g, nbody as nat);
                }
                assert(nids@ =~= mapped(ids@, old(m)@));
                if ready_to_copy(&g0, old(m)@, node, args@) {
                    lemma_copies_terms(&gm, g, old(m)@, ids@, nids@, node, args@);
                }
                if let Some(ns) = nsel {
                    lemma_term_kept(&gm, g, ns as nat);
                }
            }
            id
        },
        _ => {
            proof {
                assert(false);
            }
            0
        },
    }
}

fn replace_bus_op(
    m: &mut HashMap<NodeId, NodeId>,
    g: &mut Graph,
    node: NodeId,
    args: Ghost<Seq<NodeId>>,
) -> (r: NodeId)
    requires
        keys_ready(old(g), old(m)@, node, args@),
        old(g)@[node as int] is BusOp,
    ensures
        made_copy(old(g), final(g), old(m)@, final(m)@, node, r),
        ready_to_copy(old(g), old(m)@, node, args@) ==> copied(
            old(g),
            final(g),
            old(m)@,
            final(m)@,
            node,
            r,
            args@,
        ),
{
    let ghost g0 = *g;
    proof {
        lemma_extends_refl(g);
        lemma_keys(g, m@, node, args@);
        if ready_to_copy(g, m@, node, args@) {
            lemma_ready(g, m@, node, args@);
        }
    }
    match &g.nodes[node] {
        Op::BusOp(b, k, v, latch) => {
            let (b, k, latch) = (*b, *k, *latch);
            let ids = copy_ids(v);
            proof {
                assert forall|k: int| 0 <= k < ids@.len() implies key_in(g@, m@, #[trigger] ids@[k]) by {
                    assert(ids@[k] == v@[k]);
                }
                if ready_to_copy(g, m@, node, args@) {
                    assert forall|k: int| 0 <= k < ids@.len() implies has_copy(
                        g@,
                        m@,
                        #[trigger] ids@[k],
                        param_terms(g@, args@),
                    ) by {
                        assert(ids@[k] == v@[k]);
                    }
                }
            }
            let nids = copies_of(m, &ids);
            proof {
                assert forall|k: int| 0 <= k < nids@.len() implies (#[trigger] nids@[k]) < g@.len() by {
                    assert(key_in(g@, m@, ids@[k]));
                }
            }
            let nlatch = copy_of(m, latch);
            let ghost gm = *g;
            let id = g.insert(Op::BusOp(b, k, nids, nlatch));
            m.insert(node, id);
            proof {
                lemma_extends_trans(&g0, &gm, g);
                assert(term(g@, nlatch as nat) == term(gm@, nlatch as nat)) by {
                    lemma_term_kept(&gm, g, nlatch as nat);
                }
                assert(nids@ =~= mapped(ids@, old(m)@));
                if ready_to_copy(&g0, old(m)@, node, args@) {
                    lemma_copies_terms(&gm, g, old(m)@, ids@, nids@, node, args@);
                }
            }
            id
        },
        _ => {
            proof {
                assert(false);
            }
            0
        },
    }
}

/// Substituting an empty list of replacements leaves every tree as it is: substitution only
/// ever touches parameters, and keeps the shape and the order of operands of the rest.
pub proof fn lemma_subst_nothing(t: Term)
    ensures
        subst(t, Seq::empty()) == t,
    decreases t,
{
    match t {
        Term::Add(l, r) | Term::Sub(l, r) | Term::Mul(l, r) | Term::Exp(l, r) => {
            lemma_subst_nothing(*l);
            lemma_subst_nothing(*r);
        },
        Term::Enf(e) | Term::Boundary(_, e) | Term::Accessor(e, _, _) => lemma_subst_nothing(*e),
        Term::If(c, a, b) => {
            lemma_subst_nothing(*c);
            lemma_subst_nothing(*a);
            lemma_subst_nothing(*b);
        },
        Term::Fold(i, _, a) => {
            lemma_subst_nothing(*i);
            lemma_subst_nothing(*a);
        },
        Term::Vector(ts) | Term::Matrix(ts) | Term::Call(_, ts) => lemma_subst_all_nothing(ts),
        Term::For(its, body, sel) => {
            lemma_subst_all_nothing(its);
            lemma_subst_nothing(*body);
            if let Some(s) = sel {
                lemma_subst_nothing(*s);
            }
        },
        Term::BusOp(_, _, args, latch) => {
            lemma_subst_all_nothing(args);
            lemma_subst_nothing(*latch);
        },
        _ => {},
    }
}

/// Substituting an empty list of replacements leaves every list of trees as it is.
pub proof fn lemma_subst_all_nothing(ts: Seq<Term>)
    ensures
        subst_all(ts, Seq::empty()) == ts,
    decreases ts,
{
    if ts.len() > 0 {
        lemma_subst_all_nothing(ts.drop_last());
        lemma_subst_nothing(ts.last());
        assert(ts.drop_last().push(ts.last()) =~= ts);
    }
}

} // verus!
