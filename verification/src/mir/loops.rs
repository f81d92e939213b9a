//! Unrolling of loops: a `For` node over vectors of the same length becomes the vector of its
//! body, copied once per index with the loop's parameters replaced by the elements of the
//! iterators at that index. When the loop has a selector, each copy is kept where the selector
//! holds and is zero elsewhere.
use vstd::prelude::*;
use crate::mir::graph::{all_below, CompileError, Graph, MirValue, NodeId, Op};
use crate::mir::term::{term, Term};
use crate::mir::subst::{
    copied, duplicate_node_or_replace, has_copy, operands, param_terms, ready_to_copy, subst,
};
use crate::mir::duplicate::{lemma_extends_refl, lemma_extends_trans, lemma_term_kept};
use crate::mir::unrolling::{lemma_vector_term, vector_elems};
use crate::mir::visitor::{get_children, lemma_operands_below};
use std::collections::HashMap;

verus! {

broadcast use vstd::std_specs::hash::group_hash_axioms;

/// Every parameter below node `n` has a position below `k`.
pub open spec fn params_fit(g: Seq<Op>, n: nat, k: nat) -> bool
    decreases n, 1nat, 0nat,
{
    if n >= g.len() {
        true
    } else {
        match g[n as int] {
            Op::Parameter(p, _) => p < k,
            _ => all_params_fit(g, operands(g[n as int]), n, k),
        }
    }
}

/// Every parameter below the nodes `ids`, themselves below `bound`, has a position below `k`.
pub open spec fn all_params_fit(g: Seq<Op>, ids: Seq<NodeId>, bound: nat, k: nat) -> bool
    decreases bound, 0nat, ids.len(),
{
    if ids.len() == 0 {
        true
    } else {
        all_params_fit(g, ids.drop_last(), bound, k) && (ids.last() < bound ==> params_fit(
            g,
            ids.last() as nat,
            k,
        ))
    }
}

proof fn lemma_all_params_fit(g: Seq<Op>, ids: Seq<NodeId>, bound: nat, k: nat, j: int)
    requires
        all_params_fit(g, ids, bound, k),
        0 <= j < ids.len(),
        ids[j] < bound,
    ensures
        params_fit(g, ids[j] as nat, k),
    decreases ids.len(),
{
    if j < ids.len() - 1 {
        assert(ids.drop_last()[j] == ids[j]);
        lemma_all_params_fit(g, ids.drop_last(), bound, k, j);
    }
}

/// Every node recorded in `m` has a copy there, with the parameters replaced by `ps`.
pub open spec fn map_valid(g: Seq<Op>, m: Map<NodeId, NodeId>, ps: Seq<Term>) -> bool {
    forall|c: NodeId| #[trigger] m.contains_key(c) ==> has_copy(g, m, c, ps)
}

/// Copies node `node` and everything below it, with the parameters replaced by `args`,
/// recording in `m` the copy of each node copied.
pub(crate) fn copy_with(m: &mut HashMap<NodeId, NodeId>, g: &mut Graph, node: NodeId, args: &Vec<NodeId>)
    requires
        old(g).wf(),
        node < old(g)@.len(),
        all_below(args@, old(g)@.len()),
        params_fit(old(g)@, node as nat, args@.len()),
        map_valid(old(g)@, old(m)@, param_terms(old(g)@, args@)),
        forall|c: NodeId| #[trigger] old(m)@.contains_key(c) ==> c < old(g)@.len(),
    ensures
        final(g).wf(),
        final(g).extends(old(g)),
        map_valid(final(g)@, final(m)@, param_terms(old(g)@, args@)),
        forall|c: NodeId|
            #[trigger] final(m)@.contains_key(c) ==> old(m)@.contains_key(c) || c <= node,
        forall|c: NodeId| #[trigger] old(m)@.contains_key(c) ==> final(m)@.contains_key(c),
        final(m)@.contains_key(node),
    decreases node,
{
    let ghost g0 = *g;
    let ghost ps = param_terms(g0@, args@);
    proof {
        lemma_extends_refl(g);
        assert(crate::mir::graph::operands_below(g@[node as int], node as nat));
        lemma_operands_below(g@[node as int], node as nat);
    }
    let is_param = match &g.nodes[node] {
        Op::Parameter(..) => true,
        _ => false,
    };
    let children = if is_param {
        Vec::new()
    } else {
        get_children(g, node)
    };
    let mut k: usize = 0;
    while k < children.len()
        invariant
            g.wf(),
            g.extends(&g0),
            g0.wf(),
            node < g0@.len(),
            all_below(args@, g0@.len()),
            ps == param_terms(g0@, args@),
            !is_param ==> children@ == operands(g0@[node as int]),
            is_param ==> children@.len() == 0,
            all_below(children@, node as nat),
            !is_param ==> all_params_fit(g0@, children@, node as nat, args@.len()),
            k <= children@.len(),
            map_valid(g@, m@, ps),
            forall|c: NodeId| #[trigger] old(m)@.contains_key(c) ==> c < g0@.len(),
            forall|c: NodeId|
                #[trigger] m@.contains_key(c) ==> old(m)@.contains_key(c) || c < node,
            forall|c: NodeId| #[trigger] old(m)@.contains_key(c) ==> m@.contains_key(c),
            forall|j: int| 0 <= j < k ==> m@.contains_key(#[trigger] children@[j]),
        decreases children@.len() - k,
    {
        let c = children[k];
        let ghost gk = *g;
        proof {
            lemma_all_params_fit(g0@, children@, node as nat, args@.len(), k as int);
            assert(g@[c as int] == g0@[c as int]) by {
                assert(g@.subrange(0, g0@.len() as int)[c as int] == g@[c as int]);
            }
            lemma_params_fit_kept(&g0, g, c as nat, args@.len());
            assert(param_terms(g@, args@) =~= ps) by {
                assert forall|x: int| 0 <= x < args@.len() implies param_terms(g@, args@)[x] == ps[x] by {
                    lemma_term_kept(&g0, g, args@[x] as nat);
                }
            }
        }
        copy_with(m, g, c, args);
        proof {
            lemma_extends_trans(&g0, &gk, g);
            assert(param_terms(gk@, args@) == ps);
        }
        k = k + 1;
    }
    let ghost gm = *g;
    proof {
        assert(g@[node as int] == g0@[node as int]) by {
            assert(g@.subrange(0, g0@.len() as int)[node as int] == g@[node as int]);
        }
        assert(param_terms(g@, args@) =~= ps) by {
            assert forall|x: int| 0 <= x < args@.len() implies param_terms(g@, args@)[x] == ps[x] by {
                lemma_term_kept(&g0, g, args@[x] as nat);
            }
        }
        assert forall|j: int| 0 <= j < operands(g@[node as int]).len() implies has_copy(
            g@,
            m@,
            #[trigger] operands(g@[node as int])[j],
            param_terms(g@, args@),
        ) by {
            assert(m@.contains_key(children@[j]));
        }
        assert(all_below(args@, g@.len()));
        assert(ready_to_copy(g, m@, node, args@));
    }
    let ghost mm = m@;
    duplicate_node_or_replace(m, g, node, args);
    proof {
        lemma_extends_trans(&g0, &gm, g);
        assert(copied(&gm, g, mm, m@, node, m@[node], args@));
        assert forall|c: NodeId| #[trigger] m@.contains_key(c) implies has_copy(g@, m@, c, ps) by {
            if c != node {
                assert(mm.contains_key(c));
                assert(has_copy(gm@, mm, c, ps));
                lemma_term_kept(&gm, g, mm[c] as nat);
                lemma_term_kept(&gm, g, c as nat);
            } else {
                lemma_term_kept(&gm, g, node as nat);
            }
        }
    }
}

/// The parameters below a stored node fit in any extension of the graph.
pub(crate) proof fn lemma_params_fit_kept(old: &Graph, new: &Graph, n: nat, k: nat)
    requires
        new.extends(old),
        old.wf(),
        n < old@.len(),
        params_fit(old@, n, k),
    ensures
        params_fit(new@, n, k),
    decreases n,
{
    let p = old@.subrange(0, (n + 1) as int);
    assert(new@.subrange(0, (n + 1) as int) =~= p) by {
        assert forall|i: int| 0 <= i <= n implies new@[i] == old@[i] by {
            assert(new@.subrange(0, old@.len() as int)[i] == new@[i]);
        }
    }
    lemma_params_fit_prefix(old@, p, n, k);
    lemma_params_fit_prefix(new@, p, n, k);
}

/// Whether the parameters below node `n` fit depends only on the nodes up to `n`.
proof fn lemma_params_fit_prefix(g: Seq<Op>, p: Seq<Op>, n: nat, k: nat)
    requires
        n < p.len() <= g.len(),
        g.subrange(0, p.len() as int) == p,
    ensures
        params_fit(g, n, k) == params_fit(p, n, k),
    decreases n, 1nat,
{
    assert(g[n as int] == p[n as int]);
    if !(g[n as int] is Parameter) {
        lemma_all_params_fit_prefix(g, p, operands(g[n as int]), n, k);
    }
}

proof fn lemma_all_params_fit_prefix(g: Seq<Op>, p: Seq<Op>, ids: Seq<NodeId>, bound: nat, k: nat)
    requires
        bound < p.len() <= g.len(),
        g.subrange(0, p.len() as int) == p,
    ensures
        all_params_fit(g, ids, bound, k) == all_params_fit(p, ids, bound, k),
    decreases bound, 0nat, ids.len(),
{
    if ids.len() > 0 {
        lemma_all_params_fit_prefix(g, p, ids.drop_last(), bound, k);
        if ids.last() < bound {
            lemma_params_fit_prefix(g, p, ids.last() as nat, k);
        }
    }
}

/// The elements at index `i` of the iterators `its`.
pub open spec fn iterators_at(g: Seq<Op>, its: Seq<NodeId>, i: int) -> Seq<NodeId> {
    Seq::new(its.len(), |j: int| vector_elems(g, its[j]).unwrap()[i])
}

/// There is at least one iterator, and every iterator is a vector of `n` elements.
pub open spec fn iterators_ok(g: Seq<Op>, its: Seq<NodeId>, n: nat) -> bool {
    &&& its.len() > 0
    &&& forall|j: int|
        0 <= j < its.len() ==> vector_elems(g, #[trigger] its[j]) is Some && vector_elems(
            g,
            its[j],
        ).unwrap().len() == n
}

/// The tree of the body of a loop at index `i`: the body with the parameters replaced by the
/// elements of the iterators at that index, kept where the selector holds and zero elsewhere.
pub open spec fn unrolled_body(
    g: Seq<Op>,
    body: NodeId,
    sel: Option<NodeId>,
    its: Seq<NodeId>,
    i: int,
) -> Term {
    let b = subst(term(g, body as nat), param_terms(g, iterators_at(g, its, i)));
    match sel {
        Some(s) => Term::If(
            Box::new(term(g, s as nat)),
            Box::new(b),
            Box::new(Term::Value(MirValue::Constant(0))),
        ),
        None => b,
    }
}

/// The number of elements of the first iterator of the loop at `for_node`.
pub open spec fn loop_len(g: Seq<Op>, for_node: NodeId) -> nat {
    vector_elems(g, g[for_node as int]->For_0@[0]).unwrap().len()
}

/// Unrolls a loop: see the module documentation.
pub fn unroll_for(g: &mut Graph, for_node: NodeId) -> (r: Result<Option<NodeId>, CompileError>)
    requires
        old(g).wf(),
        for_node < old(g)@.len(),
        old(g)@[for_node as int] matches Op::For(its, body, _) && iterators_ok(
            old(g)@,
            its@,
            loop_len(old(g)@, for_node),
        ) && params_fit(old(g)@, body as nat, its@.len()),
    ensures
        final(g).wf(),
        final(g).extends(old(g)),
        ({
            let its = old(g)@[for_node as int]->For_0@;
            let body = old(g)@[for_node as int]->For_1;
            let sel = old(g)@[for_node as int]->For_2;
            r matches Ok(Some(v)) && v < final(g)@.len() && term(final(g)@, v as nat) == Term::Vector(
                Seq::new(
                    loop_len(old(g)@, for_node),
                    |i: int| unrolled_body(old(g)@, body, sel, its, i),
                ),
            )
        }),
{
    let ghost g0 = *g;
    proof {
        lemma_extends_refl(g);
        assert(crate::mir::graph::operands_below(g@[for_node as int], for_node as nat));
    }
    let (its, body, sel) = match &g.nodes[for_node] {
        Op::For(its, body, sel) => (crate::mir::graph::copy_ids(its), *body, *sel),
        _ => (Vec::new(), 0, None),
    };
    let ghost n = loop_len(g0@, for_node);
    let len = match &g.nodes[its[0]] {
        Op::Vector(es) => es.len(),
        _ => 0,
    };
    proof {
        assert(iterators_ok(g0@, its@, n));
        assert(vector_elems(g0@, its@[0]) is Some);
        assert(len == n);
        assert forall|j: int| 0 <= j < its@.len() implies all_below(
            vector_elems(g0@, #[trigger] its@[j]).unwrap(),
            g0@.len(),
        ) by {
            lemma_vector_term(&g0, its@[j]);
        }
    }
    let mut results: Vec<NodeId> = Vec::new();
    let mut i: usize = 0;
    while i < len
        invariant
            g.wf(),
            g.extends(&g0),
            g0.wf(),
            len == n,
            its@ == g0@[for_node as int]->For_0@,
            body == g0@[for_node as int]->For_1,
            sel == g0@[for_node as int]->For_2,
            iterators_ok(g0@, its@, n),
            forall|j: int| 0 <= j < its@.len() ==> all_below(
                vector_elems(g0@, #[trigger] its@[j]).unwrap(),
                g0@.len(),
            ),
            body < g0@.len(),
            sel matches Some(s) ==> s < g0@.len(),
            params_fit(g0@, body as nat, its@.len()),
            i <= len,
            results@.len() == i,
            all_below(results@, g@.len()),
            forall|q: int|
                0 <= q < i ==> #[trigger] term(g@, results@[q] as nat) == unrolled_body(
                    g0@,
                    body,
                    sel,
                    its@,
                    q,
                ),
        decreases len - i,
    {
        let ghost gi = *g;
        let mut args: Vec<NodeId> = Vec::new();
        let mut j: usize = 0;
        while j < its.len()
            invariant
                g.wf(),
                g.extends(&g0),
                iterators_ok(g0@, its@, n),
                i < n,
                j <= its@.len(),
                args@ == iterators_at(g0@, its@, i as int).subrange(0, j as int),
            decreases its@.len() - j,
        {
            let it = its[j];
            proof {
                assert(g@[it as int] == g0@[it as int]) by {
                    assert(vector_elems(g0@, its@[j as int]) is Some);
                    assert(g@.subrange(0, g0@.len() as int)[it as int] == g@[it as int]);
                }
            }
            let e = match &g.nodes[it] {
                Op::Vector(es) => es[i],
                _ => 0,
            };
            args.push(e);
            proof {
                assert(args@ =~= iterators_at(g0@, its@, i as int).subrange(0, j + 1));
            }
            j = j + 1;
        }
        proof {
            assert(args@ =~= iterators_at(g0@, its@, i as int));
            assert(all_below(args@, g@.len())) by {
                assert forall|x: int| 0 <= x < args@.len() implies (#[trigger] args@[x]) < g@.len() by {
                    assert(all_below(vector_elems(g0@, its@[x]).unwrap(), g0@.len()));
                }
            }
            assert(param_terms(g@, args@) =~= param_terms(g0@, args@)) by {
                assert forall|x: int| 0 <= x < args@.len() implies param_terms(g@, args@)[x]
                    == param_terms(g0@, args@)[x] by {
                    assert(all_below(vector_elems(g0@, its@[x]).unwrap(), g0@.len()));
                    lemma_term_kept(&g0, g, args@[x] as nat);
                }
            }
            lemma_params_fit_kept(&g0, g, body as nat, its@.len());
        }
        let mut m: HashMap<NodeId, NodeId> = HashMap::new();
        let ghost gc = *g;
        copy_with(&mut m, g, body, &args);
        let copy = match m.get(&body) {
            Some(c) => *c,
            None => 0,
        };
        let ghost gd = *g;
        proof {
            lemma_extends_trans(&g0, &gc, g);
            assert(has_copy(g@, m@, body, param_terms(gc@, args@)));
            lemma_term_kept(&g0, g, body as nat);
            assert(term(g@, copy as nat) == subst(term(g0@, body as nat), param_terms(
                g0@,
                iterators_at(g0@, its@, i as int),
            )));
            lemma_extends_refl(g);
        }
        let item = match sel {
            Some(s) => {
                let zero = g.insert(Op::Value(MirValue::Constant(0)));
                let ghost gz = *g;
                let node = g.insert(Op::If(s, copy, zero));
                proof {
                    lemma_extends_trans(&gd, &gz, g);
                    lemma_extends_trans(&g0, &gd, g);
                    lemma_term_kept(&gz, g, s as nat);
                    lemma_term_kept(&gz, g, copy as nat);
                    lemma_term_kept(&gz, g, zero as nat);
                    lemma_term_kept(&gd, &gz, copy as nat);
                    lemma_term_kept(&g0, g, s as nat);
                }
                node
            },
            None => copy,
        };
        proof {
            lemma_extends_trans(&g0, &gd, g);
            lemma_extends_trans(&gi, &gd, g);
            lemma_term_kept(&gd, g, copy as nat);
            assert forall|q: int| 0 <= q < i implies #[trigger] term(g@, results@[q] as nat)
                == unrolled_body(g0@, body, sel, its@, q) by {
                lemma_term_kept(&gi, g, results@[q] as nat);
            }
        }
        results.push(item);
        i = i + 1;
    }
    let ghost gv = *g;
    let ghost rv = results@;
    let v = g.insert(Op::Vector(results));
    proof {
        lemma_vector_term(g, v);
        lemma_extends_trans(&g0, &gv, g);
        assert forall|q: int| 0 <= q < rv.len() implies param_terms(g@, rv)[q] == unrolled_body(
            g0@,
            body,
            sel,
            its@,
            q,
        ) by {
            lemma_term_kept(&gv, g, rv[q] as nat);
        }
        assert(param_terms(g@, rv) =~= Seq::new(n, |q: int| unrolled_body(g0@, body, sel, its@, q)));
    }
    Ok(Some(v))
}

/// An unrolled loop has one element per index of its iterators, all of which have that many
/// elements; the element at index `i` is the loop's body with parameter `j` replaced by the
/// element at index `i` of iterator `j`, and, where the loop has a selector, guarded by it with
/// zero in the other branch.
pub proof fn lemma_unrolled_loop_iteration(
    before: Seq<Op>,
    after: Seq<Op>,
    for_node: NodeId,
    v: NodeId,
    i: int,
)
    requires
        for_node < before.len(),
        before[for_node as int] matches Op::For(its, body, sel) && iterators_ok(
            before,
            its@,
            loop_len(before, for_node),
        ) && term(after, v as nat) == Term::Vector(
            Seq::new(loop_len(before, for_node), |q: int| unrolled_body(before, body, sel, its@, q)),
        ),
        0 <= i < loop_len(before, for_node),
    ensures
        ({
            let its = before[for_node as int]->For_0@;
            let body = before[for_node as int]->For_1;
            let ps = Seq::new(
                its.len(),
                |j: int| term(before, vector_elems(before, its[j]).unwrap()[i] as nat),
            );
            let b = subst(term(before, body as nat), ps);
            term(after, v as nat) matches Term::Vector(ts) && (forall|j: int|
                0 <= j < its.len() ==> (vector_elems(before, #[trigger] its[j]) matches Some(es)
                    && es.len() == ts.len())) && ts[i] == match before[for_node as int]->For_2 {
                Some(s) => Term::If(
                    Box::new(term(before, s as nat)),
                    Box::new(b),
                    Box::new(Term::Value(MirValue::Constant(0))),
                ),
                None => b,
            }
        }),
{
    let its = before[for_node as int]->For_0@;
    let ps = Seq::new(
        its.len(),
        |j: int| term(before, vector_elems(before, its[j]).unwrap()[i] as nat),
    );
    assert(param_terms(before, iterators_at(before, its, i)) =~= ps);
}

} // verus!
