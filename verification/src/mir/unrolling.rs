//! Unrolling of vector operations: each helper looks at one node and, when the node works on
//! whole vectors, stores the scalar nodes it unrolls into and returns the node that replaces
//! it. A helper that returns `None` leaves the node as it is.
use vstd::prelude::*;
use crate::ast::AccessType;
use crate::mir::graph::{
    all_below, operands_below, CompileError, FoldOperator, Graph, MirValue, NodeId, Op, TraceAccess,
};
use crate::mir::term::{lemma_terms_index, term, terms, Term};
use crate::mir::subst::param_terms;
use crate::mir::duplicate::{lemma_extends_refl, lemma_extends_trans, lemma_term_kept};
use crate::mir::eval::{eval_at, Env};

verus! {

/// The elements of the vector stored at node `n`, if it is a vector.
pub open spec fn vector_elems(g: Seq<Op>, n: NodeId) -> Option<Seq<NodeId>> {
    if n < g.len() {
        match g[n as int] {
            Op::Vector(es) => Some(es@),
            _ => None,
        }
    } else {
        None
    }
}

/// The tree of a vector node is the vector of the trees of its elements.
pub proof fn lemma_vector_term(g: &Graph, v: NodeId)
    requires
        g.wf(),
        vector_elems(g@, v) is Some,
    ensures
        all_below(vector_elems(g@, v).unwrap(), v as nat),
        term(g@, v as nat) == Term::Vector(param_terms(g@, vector_elems(g@, v).unwrap())),
{
    let es = vector_elems(g@, v).unwrap();
    assert(operands_below(g@[v as int], v as nat));
    lemma_terms_index(g@, es, v as nat);
    assert(terms(g@, es, v as nat) =~= param_terms(g@, es));
}

/// The trees of stored nodes are the same in any extension of the graph.
pub proof fn lemma_param_terms_kept(old: &Graph, new: &Graph, ids: Seq<NodeId>)
    requires
        new.extends(old),
        all_below(ids, old@.len()),
    ensures
        param_terms(new@, ids) == param_terms(old@, ids),
{
    assert forall|k: int| 0 <= k < ids.len() implies param_terms(new@, ids)[k] == param_terms(
        old@,
        ids,
    )[k] by {
        lemma_term_kept(old, new, ids[k] as nat);
    }
    assert(param_terms(new@, ids) =~= param_terms(old@, ids));
}

/// Stores a vector of stored nodes.
pub(crate) fn mk_vector(g: &mut Graph, ids: Vec<NodeId>) -> (v: NodeId)
    requires
        old(g).wf(),
        all_below(ids@, old(g)@.len()),
    ensures
        final(g).wf(),
        final(g).extends(old(g)),
        v == old(g)@.len(),
        final(g)@[v as int] == Op::Vector(ids),
        term(final(g)@, v as nat) == Term::Vector(param_terms(old(g)@, ids@)),
{
    let ghost g0 = *g;
    let ghost idsv = ids@;
    let v = g.insert(Op::Vector(ids));
    proof {
        lemma_vector_term(g, v);
        lemma_param_terms_kept(&g0, g, idsv);
    }
    v
}

/// The tree of the operation `op` applied to `l` and `r`, for the four arithmetic operations.
pub open spec fn bin_term(op: Op, l: Term, r: Term) -> Term {
    match op {
        Op::Add(..) => Term::Add(Box::new(l), Box::new(r)),
        Op::Sub(..) => Term::Sub(Box::new(l), Box::new(r)),
        Op::Mul(..) => Term::Mul(Box::new(l), Box::new(r)),
        Op::Exp(..) => Term::Exp(Box::new(l), Box::new(r)),
        _ => Term::Invalid,
    }
}

/// The operands of an arithmetic operation.
pub open spec fn bin_operands(op: Op) -> (NodeId, NodeId) {
    match op {
        Op::Add(l, r) | Op::Sub(l, r) | Op::Mul(l, r) | Op::Exp(l, r) => (l, r),
        _ => (0, 0),
    }
}

/// Whether `op` is one of the four arithmetic operations.
pub open spec fn is_bin(op: Op) -> bool {
    op is Add || op is Sub || op is Mul || op is Exp
}

/// Stores the arithmetic operation of the same kind as `kind` on `l` and `r`.
fn mk_bin(g: &mut Graph, kind: &Op, l: NodeId, r: NodeId) -> (n: NodeId)
    requires
        old(g).wf(),
        is_bin(*kind),
        l < old(g)@.len(),
        r < old(g)@.len(),
    ensures
        final(g).wf(),
        final(g).extends(old(g)),
        n == old(g)@.len(),
        term(final(g)@, n as nat) == bin_term(*kind, term(old(g)@, l as nat), term(old(g)@, r as nat)),
{
    let ghost g0 = *g;
    let op = match kind {
        Op::Add(..) => Op::Add(l, r),
        Op::Sub(..) => Op::Sub(l, r),
        Op::Mul(..) => Op::Mul(l, r),
        _ => Op::Exp(l, r),
    };
    let n = g.insert(op);
    proof {
        lemma_term_kept(&g0, g, l as nat);
        lemma_term_kept(&g0, g, r as nat);
    }
    n
}

/// An arithmetic operation on two vectors of the same length becomes the vector of that
/// operation on their elements. Other operations are left as they are.
pub fn unroll_binary_op(g: &mut Graph, node: NodeId) -> (r: Result<Option<NodeId>, CompileError>)
    requires
        old(g).wf(),
        node < old(g)@.len(),
        is_bin(old(g)@[node as int]),
        ({
            let (l, rr) = bin_operands(old(g)@[node as int]);
            vector_elems(old(g)@, l) is Some && vector_elems(old(g)@, rr) is Some ==> vector_elems(
                old(g)@,
                l,
            ).unwrap().len() == vector_elems(old(g)@, rr).unwrap().len()
        }),
    ensures
        final(g).wf(),
        final(g).extends(old(g)),
        ({
            let op = old(g)@[node as int];
            let (l, rr) = bin_operands(op);
            if vector_elems(old(g)@, l) is Some && vector_elems(old(g)@, rr) is Some {
                let ls = vector_elems(old(g)@, l).unwrap();
                let rs = vector_elems(old(g)@, rr).unwrap();
                r matches Ok(Some(v)) && v < final(g)@.len() && term(final(g)@, v as nat)
                    == Term::Vector(
                    Seq::new(
                        ls.len(),
                        |i: int|
                            bin_term(op, term(old(g)@, ls[i] as nat), term(old(g)@, rs[i] as nat)),
                    ),
                )
            } else {
                r == Ok::<Option<NodeId>, CompileError>(None) && final(g)@ == old(g)@
            }
        }),
{
    let ghost g0 = *g;
    proof {
        lemma_extends_refl(g);
        assert(operands_below(g@[node as int], node as nat));
    }
    let (l, rr) = match &g.nodes[node] {
        Op::Add(l, r) | Op::Sub(l, r) | Op::Mul(l, r) | Op::Exp(l, r) => (*l, *r),
        _ => (0, 0),
    };
    let ls = match &g.nodes[l] {
        Op::Vector(es) => Some(crate::mir::graph::copy_ids(es)),
        _ => None,
    };
    let rs = match &g.nodes[rr] {
        Op::Vector(es) => Some(crate::mir::graph::copy_ids(es)),
        _ => None,
    };
    match (ls, rs) {
        (Some(ls), Some(rs)) => {
            proof {
                lemma_vector_term(g, l);
                lemma_vector_term(g, rr);
            }
            let kind = match &g.nodes[node] {
                Op::Add(..) => Op::Add(0, 0),
                Op::Sub(..) => Op::Sub(0, 0),
                Op::Mul(..) => Op::Mul(0, 0),
                _ => Op::Exp(0, 0),
            };
            assert(forall|a: Term, b: Term| #[trigger] bin_term(kind, a, b) == bin_term(g0@[node as int], a, b));
            let mut new_ids: Vec<NodeId> = Vec::new();
            let mut i: usize = 0;
            while i < ls.len()
                invariant
                    g.wf(),
                    g.extends(&g0),
                    g0.wf(),
                    is_bin(kind),
                    forall|a: Term, b: Term| #[trigger] bin_term(kind, a, b) == bin_term(g0@[node as int], a, b),
                    ls@.len() == rs@.len(),
                    all_below(ls@, g0@.len()),
                    all_below(rs@, g0@.len()),
                    i <= ls@.len(),
                    new_ids@.len() == i,
                    all_below(new_ids@, g@.len()),
                    forall|j: int|
                        0 <= j < i ==> #[trigger] term(g@, new_ids@[j] as nat) == bin_term(
                            g0@[node as int],
                            term(g0@, ls@[j] as nat),
                            term(g0@, rs@[j] as nat),
                        ),
                decreases ls@.len() - i,
            {
                let ghost gi = *g;
                proof {
                    lemma_term_kept(&g0, g, ls@[i as int] as nat);
                    lemma_term_kept(&g0, g, rs@[i as int] as nat);
                }
                let n = mk_bin(g, &kind, ls[i], rs[i]);
                proof {
                    assert forall|j: int| 0 <= j < i implies #[trigger] term(g@, new_ids@[j] as nat)
                        == term(gi@, new_ids@[j] as nat) by {
                        lemma_term_kept(&gi, g, new_ids@[j] as nat);
                    }
                    lemma_extends_trans(&g0, &gi, g);
                }
                new_ids.push(n);
                i = i + 1;
            }
            let ghost gv = *g;
            let ghost idsv = new_ids@;
            let v = mk_vector(g, new_ids);
            proof {
                lemma_extends_trans(&g0, &gv, g);
                let op = g0@[node as int];
                assert(param_terms(gv@, idsv) =~= Seq::new(
                    ls@.len(),
                    |i: int| bin_term(op, term(g0@, ls@[i] as nat), term(g0@, rs@[i] as nat)),
                ));
            }
            Ok(Some(v))
        },
        _ => Ok(None),
    }
}

/// Unrolls an addition.
pub fn unroll_add(g: &mut Graph, add: NodeId) -> (r: Result<Option<NodeId>, CompileError>)
    requires
        old(g).wf(),
        add < old(g)@.len(),
        old(g)@[add as int] is Add,
        binary_lengths_match(old(g)@, add),
    ensures
        unrolled_binary(old(g), final(g), add, r),
{
    unroll_binary_op(g, add)
}

/// Unrolls a subtraction.
pub fn unroll_sub(g: &mut Graph, sub: NodeId) -> (r: Result<Option<NodeId>, CompileError>)
    requires
        old(g).wf(),
        sub < old(g)@.len(),
        old(g)@[sub as int] is Sub,
        binary_lengths_match(old(g)@, sub),
    ensures
        unrolled_binary(old(g), final(g), sub, r),
{
    unroll_binary_op(g, sub)
}

/// Unrolls a multiplication.
pub fn unroll_mul(g: &mut Graph, mul: NodeId) -> (r: Result<Option<NodeId>, CompileError>)
    requires
        old(g).wf(),
        mul < old(g)@.len(),
        old(g)@[mul as int] is Mul,
        binary_lengths_match(old(g)@, mul),
    ensures
        unrolled_binary(old(g), final(g), mul, r),
{
    unroll_binary_op(g, mul)
}

/// Unrolls an exponentiation.
pub fn unroll_exp(g: &mut Graph, exp: NodeId) -> (r: Result<Option<NodeId>, CompileError>)
    requires
        old(g).wf(),
        exp < old(g)@.len(),
        old(g)@[exp as int] is Exp,
        binary_lengths_match(old(g)@, exp),
    ensures
        unrolled_binary(old(g), final(g), exp, r),
{
    unroll_binary_op(g, exp)
}

/// When both operands of the arithmetic operation at `node` are vectors, they have the same
/// length.
pub open spec fn binary_lengths_match(g: Seq<Op>, node: NodeId) -> bool {
    let (l, r) = bin_operands(g[node as int]);
    vector_elems(g, l) is Some && vector_elems(g, r) is Some ==> vector_elems(g, l).unwrap().len()
        == vector_elems(g, r).unwrap().len()
}

/// What unrolling the enforcement at `node` gives: enforcing a vector becomes the vector of
/// the enforcements of its elements; any other enforcement is left as it is.
pub open spec fn unrolled_enf(
    before: &Graph,
    after: &Graph,
    node: NodeId,
    r: Result<Option<NodeId>, CompileError>,
) -> bool {
    let e = before@[node as int]->Enf_0;
    &&& after.wf()
    &&& after.extends(before)
    &&& if vector_elems(before@, e) is Some {
        let es = vector_elems(before@, e).unwrap();
        r matches Ok(Some(v)) && v < after@.len() && term(after@, v as nat) == Term::Vector(
            Seq::new(es.len(), |i: int| Term::Enf(Box::new(term(before@, es[i] as nat)))),
        )
    } else {
        r == Ok::<Option<NodeId>, CompileError>(None) && after@ == before@
    }
}

/// What unrolling the boundary access at `node` gives: the boundary of a vector becomes the
/// vector of the boundaries of its elements; any other is left as it is.
pub open spec fn unrolled_boundary(
    before: &Graph,
    after: &Graph,
    node: NodeId,
    r: Result<Option<NodeId>, CompileError>,
) -> bool {
    let kind = before@[node as int]->Boundary_0;
    let e = before@[node as int]->Boundary_1;
    &&& after.wf()
    &&& after.extends(before)
    &&& if vector_elems(before@, e) is Some {
        let es = vector_elems(before@, e).unwrap();
        r matches Ok(Some(v)) && v < after@.len() && term(after@, v as nat) == Term::Vector(
            Seq::new(es.len(), |i: int| Term::Boundary(kind, Box::new(term(before@, es[i] as nat)))),
        )
    } else {
        r == Ok::<Option<NodeId>, CompileError>(None) && after@ == before@
    }
}

/// What unrolling the fold at `node` gives: the operator applied from the initial value over
/// the elements of the vector.
pub open spec fn unrolled_fold(
    before: &Graph,
    after: &Graph,
    node: NodeId,
    r: Result<Option<NodeId>, CompileError>,
) -> bool {
    let it = before@[node as int]->Fold_0;
    let op = before@[node as int]->Fold_1;
    let init = before@[node as int]->Fold_2;
    let es = vector_elems(before@, it).unwrap();
    &&& after.wf()
    &&& after.extends(before)
    &&& r matches Ok(Some(n)) && n < after@.len() && term(after@, n as nat) == fold_term(
        op,
        term(before@, init as nat),
        param_terms(before@, es),
    )
}

/// What unrolling the vector at `node` gives: a vector of one element is that element.
pub open spec fn unrolled_vector(
    before: &Graph,
    after: &Graph,
    node: NodeId,
    r: Result<Option<NodeId>, CompileError>,
) -> bool {
    let es = vector_elems(before@, node).unwrap();
    &&& after@ == before@
    &&& after.wf()
    &&& after.extends(before)
    &&& if es.len() == 1 {
        r == Ok::<Option<NodeId>, CompileError>(Some(es[0]))
    } else {
        r == Ok::<Option<NodeId>, CompileError>(None)
    }
}

/// What unrolling the value at `node` gives: a binding of columns becomes the vector of its
/// columns, a binding of random values the vector of its values, a constant vector the
/// vector of its elements and a constant matrix the matrix of its rows; any other value is
/// left as it is.
pub open spec fn unrolled_value(
    before: &Graph,
    after: &Graph,
    node: NodeId,
    r: Result<Option<NodeId>, CompileError>,
) -> bool {
    &&& after.wf()
    &&& after.extends(before)
    &&& before@[node as int] matches Op::Value(MirValue::TraceAccessBinding(b)) ==> r matches Ok(
        Some(n),
    ) && n < after@.len() && term(after@, n as nat) == binding_term(b.segment, b.offset, b.size)
    &&& before@[node as int] matches Op::Value(MirValue::RandomValueBinding(b)) ==> r matches Ok(
        Some(n),
    ) && n < after@.len() && term(after@, n as nat) == random_binding_term(b.offset, b.size)
    &&& before@[node as int] matches Op::Value(MirValue::ConstantVector(v)) ==> r matches Ok(
        Some(n),
    ) && n < after@.len() && term(after@, n as nat) == Term::Vector(
        Seq::new(v@.len(), |i: int| Term::Value(MirValue::Constant(v@[i]))),
    )
    &&& before@[node as int] matches Op::Value(MirValue::ConstantMatrix(m)) ==> r matches Ok(
        Some(n),
    ) && n < after@.len() && term(after@, n as nat) == constant_matrix_term(m@)
    &&& !(before@[node as int] matches Op::Value(MirValue::TraceAccessBinding(_)))
        && !(before@[node as int] matches Op::Value(MirValue::RandomValueBinding(_)))
        && !(before@[node as int] matches Op::Value(MirValue::ConstantVector(_)))
        && !(before@[node as int] matches Op::Value(MirValue::ConstantMatrix(_))) ==> r == Ok::<
        Option<NodeId>,
        CompileError,
    >(None) && after@ == before@
}

/// What unrolling the access at `node` gives.
pub open spec fn unrolled_accessor(
    before: &Graph,
    after: &Graph,
    node: NodeId,
    r: Result<Option<NodeId>, CompileError>,
) -> bool {
    &&& after.wf()
    &&& after.extends(before)
    &&& match unrolled_access(before@, node) {
        Unrolled::Keep => r == Ok::<Option<NodeId>, CompileError>(None) && after@ == before@,
        Unrolled::Node(n) => r == Ok::<Option<NodeId>, CompileError>(Some(n)) && after@ == before@,
        Unrolled::Column(ta) => r matches Ok(Some(n)) && n == before@.len() && after@ == before@.push(
            Op::Value(MirValue::TraceAccess(ta)),
        ),
    }
}

/// What unrolling the arithmetic operation at `node` gives: when both operands are vectors,
/// a new vector of the operation on their elements; otherwise nothing.
pub open spec fn unrolled_binary(
    before: &Graph,
    after: &Graph,
    node: NodeId,
    r: Result<Option<NodeId>, CompileError>,
) -> bool {
    let op = before@[node as int];
    let (l, rr) = bin_operands(op);
    &&& after.wf()
    &&& after.extends(before)
    &&& if vector_elems(before@, l) is Some && vector_elems(before@, rr) is Some {
        let ls = vector_elems(before@, l).unwrap();
        let rs = vector_elems(before@, rr).unwrap();
        r matches Ok(Some(v)) && v < after@.len() && term(after@, v as nat) == Term::Vector(
            Seq::new(
                ls.len(),
                |i: int| bin_term(op, term(before@, ls[i] as nat), term(before@, rs[i] as nat)),
            ),
        )
    } else {
        r == Ok::<Option<NodeId>, CompileError>(None) && after@ == before@
    }
}

/// The tree that a binding of trace columns unrolls into: the single column for a binding of
/// one column, the vector of its columns otherwise.
pub open spec fn binding_term(segment: usize, offset: usize, size: usize) -> Term {
    if size == 1 {
        Term::Value(MirValue::TraceAccess(TraceAccess { segment, column: offset, row_offset: 0 }))
    } else {
        Term::Vector(
            Seq::new(
                size as nat,
                |i: int|
                    Term::Value(
                        MirValue::TraceAccess(
                            TraceAccess { segment, column: (offset + i) as usize, row_offset: 0 },
                        ),
                    ),
            ),
        )
    }
}

/// Stores the trace columns a binding stands for: one column, or a vector of them.
pub fn unroll_trace_access_binding(g: &mut Graph, segment: usize, offset: usize, size: usize) -> (r:
    NodeId)
    requires
        old(g).wf(),
        offset + size <= usize::MAX,
    ensures
        final(g).wf(),
        final(g).extends(old(g)),
        r < final(g)@.len(),
        term(final(g)@, r as nat) == binding_term(segment, offset, size),
{
    if size == 1 {
        let v = MirValue::TraceAccess(TraceAccess { segment, column: offset, row_offset: 0 });
        g.insert(Op::Value(v))
    } else {
        let ghost g0 = *g;
        proof {
            lemma_extends_refl(g);
        }
        let mut ids: Vec<NodeId> = Vec::new();
        let mut index: usize = 0;
        while index < size
            invariant
                g.wf(),
                g.extends(&g0),
                offset + size <= usize::MAX,
                index <= size,
                ids@.len() == index,
                all_below(ids@, g@.len()),
                forall|j: int|
                    0 <= j < index ==> #[trigger] term(g@, ids@[j] as nat) == Term::Value(
                        MirValue::TraceAccess(
                            TraceAccess { segment, column: (offset + j) as usize, row_offset: 0 },
                        ),
                    ),
            decreases size - index,
        {
            let ghost gi = *g;
            let v = MirValue::TraceAccess(
                TraceAccess { segment, column: offset + index, row_offset: 0 },
            );
            let n = g.insert(Op::Value(v));
            proof {
                assert forall|j: int| 0 <= j < index implies #[trigger] term(g@, ids@[j] as nat)
                    == term(gi@, ids@[j] as nat) by {
                    lemma_term_kept(&gi, g, ids@[j] as nat);
                }
                lemma_extends_trans(&g0, &gi, g);
            }
            ids.push(n);
            index = index + 1;
        }
        let ghost gv = *g;
        let ghost idsv = ids@;
        let v = mk_vector(g, ids);
        proof {
            lemma_extends_trans(&g0, &gv, g);
            assert(param_terms(gv@, idsv) =~= Seq::new(
                size as nat,
                |i: int|
                    Term::Value(
                        MirValue::TraceAccess(
                            TraceAccess { segment, column: (offset + i) as usize, row_offset: 0 },
                        ),
                    ),
            ));
        }
        v
    }
}

/// Unrolls a value: a binding of trace columns becomes the columns it stands for; any other
/// value is left as it is.
pub fn unroll_value(g: &mut Graph, value: NodeId) -> (r: Result<Option<NodeId>, CompileError>)
    requires
        old(g).wf(),
        value < old(g)@.len(),
        old(g)@[value as int] matches Op::Value(v) && (v matches MirValue::TraceAccessBinding(b)
            ==> b.offset + b.size <= usize::MAX) && (v matches MirValue::RandomValueBinding(b)
            ==> b.offset + b.size <= usize::MAX),
    ensures
        unrolled_value(old(g), final(g), value, r),
{
    let constant = match &g.nodes[value] {
        Op::Value(MirValue::ConstantVector(v)) => Some(MirValue::ConstantVector(
            crate::mir::graph::copy_u64s(v),
        )),
        Op::Value(MirValue::ConstantMatrix(m)) => Some(MirValue::ConstantMatrix(copy_matrix_rows(m))),
        _ => None,
    };
    let ghost orig = g@[value as int];
    match constant {
        Some(MirValue::ConstantVector(v)) => {
            return Ok(Some(unroll_constant_vector(g, &v)));
        },
        Some(MirValue::ConstantMatrix(m)) => {
            let r = unroll_constant_matrix(g, &m);
            proof {
                if let Op::Value(MirValue::ConstantMatrix(m0)) = orig {
                    assert(constant_matrix_term(m@) =~= constant_matrix_term(m0@)) by {
                        assert forall|i: int| 0 <= i < m@.len() implies m@[i]@ == m0@[i]@ by {}
                        assert(Seq::new(
                            m@.len(),
                            |i: int|
                                Term::Vector(
                                    Seq::new(m@[i]@.len(), |c: int| Term::Value(MirValue::Constant(m@[i]@[c]))),
                                ),
                        ) =~= Seq::new(
                            m0@.len(),
                            |i: int|
                                Term::Vector(
                                    Seq::new(m0@[i]@.len(), |c: int| Term::Value(MirValue::Constant(m0@[i]@[c]))),
                                ),
                        ));
                    }
                }
            }
            return Ok(Some(r));
        },
        _ => {},
    }
    let (binding, random) = match &g.nodes[value] {
        Op::Value(MirValue::TraceAccessBinding(b)) => (Some(*b), None),
        Op::Value(MirValue::RandomValueBinding(b)) => (None, Some(*b)),
        _ => (None, None),
    };
    match (binding, random) {
        (Some(b), _) => Ok(Some(unroll_trace_access_binding(g, b.segment, b.offset, b.size))),
        (None, Some(b)) => Ok(Some(unroll_random_value_binding(g, b.offset, b.size))),
        (None, None) => {
            proof {
                lemma_extends_refl(g);
            }
            Ok(None)
        },
    }
}

/// A copy of the rows of a matrix, row by row.
fn copy_matrix_rows(m: &Vec<Vec<u64>>) -> (r: Vec<Vec<u64>>)
    ensures
        r@.len() == m@.len(),
        forall|j: int| 0 <= j < m@.len() ==> (#[trigger] r@[j])@ == m@[j]@,
{
    let mut out: Vec<Vec<u64>> = Vec::new();
    let mut k: usize = 0;
    while k < m.len()
        invariant
            k <= m@.len(),
            out@.len() == k,
            forall|j: int| 0 <= j < k ==> (#[trigger] out@[j])@ == m@[j]@,
        decreases m@.len() - k,
    {
        out.push(crate::mir::graph::copy_u64s(&m[k]));
        k = k + 1;
    }
    out
}

/// The tree the random values of a binding unroll into: the vector of those values.
pub open spec fn random_binding_term(offset: usize, size: usize) -> Term {
    Term::Vector(
        Seq::new(size as nat, |i: int| Term::Value(MirValue::RandomValue((offset + i) as usize))),
    )
}

/// Stores the random values a binding stands for, as a vector of them.
pub fn unroll_random_value_binding(g: &mut Graph, offset: usize, size: usize) -> (r: NodeId)
    requires
        old(g).wf(),
        offset + size <= usize::MAX,
    ensures
        final(g).wf(),
        final(g).extends(old(g)),
        old(g)@.len() <= r < final(g)@.len(),
        term(final(g)@, r as nat) == random_binding_term(offset, size),
{
    let ghost g0 = *g;
    proof {
        lemma_extends_refl(g);
    }
    let mut ids: Vec<NodeId> = Vec::new();
    let mut index: usize = 0;
    while index < size
        invariant
            g.wf(),
            g.extends(&g0),
            offset + size <= usize::MAX,
            index <= size,
            ids@.len() == index,
            all_below(ids@, g@.len()),
            forall|j: int|
                0 <= j < index ==> #[trigger] term(g@, ids@[j] as nat) == Term::Value(
                    MirValue::RandomValue((offset + j) as usize),
                ),
        decreases size - index,
    {
        let ghost gi = *g;
        let n = g.insert(Op::Value(MirValue::RandomValue(offset + index)));
        proof {
            assert forall|j: int| 0 <= j < index implies #[trigger] term(g@, ids@[j] as nat) == term(
                gi@,
                ids@[j] as nat,
            ) by {
                lemma_term_kept(&gi, g, ids@[j] as nat);
            }
            lemma_extends_trans(&g0, &gi, g);
        }
        ids.push(n);
        index = index + 1;
    }
    let ghost gv = *g;
    let ghost idsv = ids@;
    let v = mk_vector(g, ids);
    proof {
        lemma_extends_trans(&g0, &gv, g);
        assert(param_terms(gv@, idsv) =~= Seq::new(
            size as nat,
            |i: int| Term::Value(MirValue::RandomValue((offset + i) as usize)),
        ));
    }
    v
}

/// A single-column binding and the column it unrolls into have the same value.
pub proof fn lemma_unrolled_column_value(segment: usize, offset: usize, env: crate::mir::eval::Env, s: int)
    ensures
        crate::mir::eval::eval_at(binding_term(segment, offset, 1), env, s) == crate::mir::eval::eval_at(
            Term::Value(MirValue::TraceAccessBinding(
                crate::mir::graph::TraceAccessBinding { segment, offset, size: 1 },
            )),
            env,
            s,
        ),
{
}

/// Stores a constant vector as a vector of constants.
pub fn unroll_constant_vector(g: &mut Graph, values: &Vec<u64>) -> (r: NodeId)
    requires
        old(g).wf(),
    ensures
        final(g).wf(),
        final(g).extends(old(g)),
        old(g)@.len() <= r < final(g)@.len(),
        term(final(g)@, r as nat) == Term::Vector(
            Seq::new(values@.len(), |i: int| Term::Value(MirValue::Constant(values@[i]))),
        ),
{
    let ghost g0 = *g;
    proof {
        lemma_extends_refl(g);
    }
    let mut ids: Vec<NodeId> = Vec::new();
    let mut k: usize = 0;
    while k < values.len()
        invariant
            g.wf(),
            g.extends(&g0),
            k <= values@.len(),
            ids@.len() == k,
            all_below(ids@, g@.len()),
            forall|j: int|
                0 <= j < k ==> #[trigger] term(g@, ids@[j] as nat) == Term::Value(
                    MirValue::Constant(values@[j]),
                ),
        decreases values@.len() - k,
    {
        let ghost gi = *g;
        let n = g.insert(Op::Value(MirValue::Constant(values[k])));
        proof {
            assert forall|j: int| 0 <= j < k implies #[trigger] term(g@, ids@[j] as nat) == term(
                gi@,
                ids@[j] as nat,
            ) by {
                lemma_term_kept(&gi, g, ids@[j] as nat);
            }
            lemma_extends_trans(&g0, &gi, g);
        }
        ids.push(n);
        k = k + 1;
    }
    let ghost gv = *g;
    let ghost idsv = ids@;
    let v = mk_vector(g, ids);
    proof {
        lemma_extends_trans(&g0, &gv, g);
        assert(param_terms(gv@, idsv) =~= Seq::new(
            values@.len(),
            |i: int| Term::Value(MirValue::Constant(values@[i])),
        ));
    }
    v
}

/// The tree of a constant matrix unrolled: a matrix of vectors of constants.
pub open spec fn constant_matrix_term(rows: Seq<Vec<u64>>) -> Term {
    Term::Matrix(
        Seq::new(
            rows.len(),
            |r: int|
                Term::Vector(
                    Seq::new(rows[r]@.len(), |c: int| Term::Value(MirValue::Constant(rows[r]@[c]))),
                ),
        ),
    )
}

/// Stores a constant matrix as a matrix of vectors of constants.
pub fn unroll_constant_matrix(g: &mut Graph, rows: &Vec<Vec<u64>>) -> (r: NodeId)
    requires
        old(g).wf(),
    ensures
        final(g).wf(),
        final(g).extends(old(g)),
        old(g)@.len() <= r < final(g)@.len(),
        term(final(g)@, r as nat) == constant_matrix_term(rows@),
{
    let ghost g0 = *g;
    proof {
        lemma_extends_refl(g);
    }
    let mut ids: Vec<NodeId> = Vec::new();
    let mut k: usize = 0;
    while k < rows.len()
        invariant
            g.wf(),
            g.extends(&g0),
            k <= rows@.len(),
            ids@.len() == k,
            all_below(ids@, g@.len()),
            forall|j: int|
                0 <= j < k ==> #[trigger] term(g@, ids@[j] as nat) == Term::Vector(
                    Seq::new(rows@[j]@.len(), |c: int| Term::Value(MirValue::Constant(rows@[j]@[c]))),
                ),
        decreases rows@.len() - k,
    {
        let ghost gi = *g;
        let n = unroll_constant_vector(g, &rows[k]);
        proof {
            assert forall|j: int| 0 <= j < k implies #[trigger] term(g@, ids@[j] as nat) == term(
                gi@,
                ids@[j] as nat,
            ) by {
                lemma_term_kept(&gi, g, ids@[j] as nat);
            }
            lemma_extends_trans(&g0, &gi, g);
        }
        ids.push(n);
        k = k + 1;
    }
    let ghost gv = *g;
    let ghost idsv = ids@;
    let m = g.insert(Op::Matrix(ids));
    proof {
        assert(operands_below(g@[m as int], m as nat));
        lemma_terms_index(g@, idsv, m as nat);
        lemma_param_terms_kept(&gv, g, idsv);
        assert(terms(g@, idsv, m as nat) =~= Seq::new(
            rows@.len(),
            |r: int|
                Term::Vector(
                    Seq::new(rows@[r]@.len(), |c: int| Term::Value(MirValue::Constant(rows@[r]@[c]))),
                ),
        )) by {
            assert forall|r: int| 0 <= r < rows@.len() implies terms(g@, idsv, m as nat)[r]
                == term(gv@, idsv[r] as nat) by {
                lemma_term_kept(&gv, g, idsv[r] as nat);
            }
        }
        lemma_extends_trans(&g0, &gv, g);
    }
    m
}

/// Unrolls an enforcement: enforcing a vector becomes the vector of the enforcements of its
/// elements; any other enforcement is left as it is.
pub fn unroll_enf(g: &mut Graph, enf: NodeId) -> (r: Result<Option<NodeId>, CompileError>)
    requires
        old(g).wf(),
        enf < old(g)@.len(),
        old(g)@[enf as int] is Enf,
    ensures
        unrolled_enf(old(g), final(g), enf, r),
{
    let ghost g0 = *g;
    proof {
        lemma_extends_refl(g);
        assert(operands_below(g@[enf as int], enf as nat));
    }
    let e = match &g.nodes[enf] {
        Op::Enf(e) => *e,
        _ => 0,
    };
    let es = match &g.nodes[e] {
        Op::Vector(es) => Some(crate::mir::graph::copy_ids(es)),
        _ => None,
    };
    match es {
        Some(es) => {
            proof {
                lemma_vector_term(g, e);
            }
            let mut ids: Vec<NodeId> = Vec::new();
            let mut i: usize = 0;
            while i < es.len()
                invariant
                    g.wf(),
                    g.extends(&g0),
                    all_below(es@, g0@.len()),
                    i <= es@.len(),
                    ids@.len() == i,
                    all_below(ids@, g@.len()),
                    forall|j: int|
                        0 <= j < i ==> #[trigger] term(g@, ids@[j] as nat) == Term::Enf(
                            Box::new(term(g0@, es@[j] as nat)),
                        ),
                decreases es@.len() - i,
            {
                let ghost gi = *g;
                proof {
                    lemma_term_kept(&g0, g, es@[i as int] as nat);
                }
                let n = g.insert(Op::Enf(es[i]));
                proof {
                    lemma_term_kept(&gi, g, es@[i as int] as nat);
                    assert forall|j: int| 0 <= j < i implies #[trigger] term(g@, ids@[j] as nat)
                        == term(gi@, ids@[j] as nat) by {
                        lemma_term_kept(&gi, g, ids@[j] as nat);
                    }
                    lemma_extends_trans(&g0, &gi, g);
                }
                ids.push(n);
                i = i + 1;
            }
            let ghost gv = *g;
            let ghost idsv = ids@;
            let v = mk_vector(g, ids);
            proof {
                lemma_extends_trans(&g0, &gv, g);
                assert(param_terms(gv@, idsv) =~= Seq::new(
                    es@.len(),
                    |i: int| Term::Enf(Box::new(term(g0@, es@[i] as nat))),
                ));
            }
            Ok(Some(v))
        },
        None => Ok(None),
    }
}

/// Unrolls a boundary constraint: a constraint on a vector becomes the vector of the
/// constraints on its elements, at the same boundary; any other one is left as it is.
pub fn unroll_boundary(g: &mut Graph, boundary: NodeId) -> (r: Result<Option<NodeId>, CompileError>)
    requires
        old(g).wf(),
        boundary < old(g)@.len(),
        old(g)@[boundary as int] is Boundary,
    ensures
        unrolled_boundary(old(g), final(g), boundary, r),
{
    let ghost g0 = *g;
    proof {
        lemma_extends_refl(g);
        assert(operands_below(g@[boundary as int], boundary as nat));
    }
    let (kind, e) = match &g.nodes[boundary] {
        Op::Boundary(k, e) => (*k, *e),
        _ => (crate::mir::graph::BoundaryKind::First, 0),
    };
    let es = match &g.nodes[e] {
        Op::Vector(es) => Some(crate::mir::graph::copy_ids(es)),
        _ => None,
    };
    match es {
        Some(es) => {
            proof {
                lemma_vector_term(g, e);
            }
            let mut ids: Vec<NodeId> = Vec::new();
            let mut i: usize = 0;
            while i < es.len()
                invariant
                    g.wf(),
                    g.extends(&g0),
                    all_below(es@, g0@.len()),
                    i <= es@.len(),
                    ids@.len() == i,
                    all_below(ids@, g@.len()),
                    forall|j: int|
                        0 <= j < i ==> #[trigger] term(g@, ids@[j] as nat) == Term::Boundary(
                            kind,
                            Box::new(term(g0@, es@[j] as nat)),
                        ),
                decreases es@.len() - i,
            {
                let ghost gi = *g;
                proof {
                    lemma_term_kept(&g0, g, es@[i as int] as nat);
                }
                let n = g.insert(Op::Boundary(kind, es[i]));
                proof {
                    lemma_term_kept(&gi, g, es@[i as int] as nat);
                    assert forall|j: int| 0 <= j < i implies #[trigger] term(g@, ids@[j] as nat)
                        == term(gi@, ids@[j] as nat) by {
                        lemma_term_kept(&gi, g, ids@[j] as nat);
                    }
                    lemma_extends_trans(&g0, &gi, g);
                }
                ids.push(n);
                i = i + 1;
            }
            let ghost gv = *g;
            let ghost idsv = ids@;
            let v = mk_vector(g, ids);
            proof {
                lemma_extends_trans(&g0, &gv, g);
                assert(param_terms(gv@, idsv) =~= Seq::new(
                    es@.len(),
                    |i: int| Term::Boundary(kind, Box::new(term(g0@, es@[i] as nat))),
                ));
            }
            Ok(Some(v))
        },
        None => Ok(None),
    }
}

/// The tree of a fold unrolled: the initial value combined, from the left, with each element
/// by the operator.
pub open spec fn fold_term(op: FoldOperator, acc: Term, es: Seq<Term>) -> Term
    decreases es.len(),
{
    if es.len() == 0 {
        acc
    } else {
        let t = fold_term(op, acc, es.drop_last());
        match op {
            FoldOperator::Add => Term::Add(Box::new(t), Box::new(es.last())),
            FoldOperator::Mul => Term::Mul(Box::new(t), Box::new(es.last())),
            FoldOperator::Undefined => Term::Invalid,
        }
    }
}

/// Unrolls a fold over a vector into the chain of additions (or multiplications) of its
/// elements to the initial value. An empty vector gives the initial value itself.
pub fn unroll_fold(g: &mut Graph, fold: NodeId) -> (r: Result<Option<NodeId>, CompileError>)
    requires
        old(g).wf(),
        fold < old(g)@.len(),
        old(g)@[fold as int] matches Op::Fold(it, op, _) && vector_elems(old(g)@, it) is Some && (
        vector_elems(old(g)@, it).unwrap().len() > 0 ==> op != FoldOperator::Undefined),
    ensures
        unrolled_fold(old(g), final(g), fold, r),
{
    let ghost g0 = *g;
    proof {
        lemma_extends_refl(g);
        assert(operands_below(g@[fold as int], fold as nat));
    }
    let (it, op, init) = match &g.nodes[fold] {
        Op::Fold(i, o, a) => (*i, *o, *a),
        _ => (0, FoldOperator::Undefined, 0),
    };
    let es = match &g.nodes[it] {
        Op::Vector(es) => crate::mir::graph::copy_ids(es),
        _ => Vec::new(),
    };
    proof {
        lemma_vector_term(g, it);
    }
    let mut acc = init;
    let mut k: usize = 0;
    while k < es.len()
        invariant
            g.wf(),
            g.extends(&g0),
            all_below(es@, g0@.len()),
            es@.len() > 0 ==> op != FoldOperator::Undefined,
            init < g0@.len(),
            k <= es@.len(),
            acc < g@.len(),
            term(g@, acc as nat) == fold_term(
                op,
                term(g0@, init as nat),
                param_terms(g0@, es@.subrange(0, k as int)),
            ),
        decreases es@.len() - k,
    {
        let ghost gi = *g;
        proof {
            lemma_term_kept(&g0, g, es@[k as int] as nat);
        }
        let n = match op {
            FoldOperator::Add => g.insert(Op::Add(acc, es[k])),
            _ => g.insert(Op::Mul(acc, es[k])),
        };
        proof {
            lemma_term_kept(&gi, g, acc as nat);
            lemma_term_kept(&gi, g, es@[k as int] as nat);
            lemma_extends_trans(&g0, &gi, g);
            let pre = param_terms(g0@, es@.subrange(0, k as int));
            let post = param_terms(g0@, es@.subrange(0, k + 1));
            assert(post.drop_last() =~= pre);
            assert(post.last() == term(g0@, es@[k as int] as nat));
        }
        acc = n;
        k = k + 1;
    }
    proof {
        assert(es@.subrange(0, k as int) =~= es@);
    }
    Ok(Some(acc))
}

/// Unrolls a vector: a vector of one element becomes that element.
pub fn unroll_vector(g: &mut Graph, vector: NodeId) -> (r: Result<Option<NodeId>, CompileError>)
    requires
        old(g).wf(),
        vector < old(g)@.len(),
        old(g)@[vector as int] is Vector,
    ensures
        unrolled_vector(old(g), final(g), vector, r),
{
    proof {
        lemma_extends_refl(g);
    }
    match &g.nodes[vector] {
        Op::Vector(es) => if es.len() == 1 {
            Ok(Some(es[0]))
        } else {
            Ok(None)
        },
        _ => Ok(None),
    }
}

/// Matrices are unrolled already: nothing to do.
pub fn unroll_matrix(g: &mut Graph, matrix: NodeId) -> (r: Result<Option<NodeId>, CompileError>)
    ensures
        *final(g) == *old(g),
        r == Ok::<Option<NodeId>, CompileError>(None),
{
    Ok(None)
}

/// What an access unrolls to.
pub enum Unrolled {
    /// The access is left as it is
    Keep,
    /// The access is replaced by a stored node
    Node(NodeId),
    /// The access is replaced by a new node, a trace column
    Column(TraceAccess),
}

/// The elements of the vector or matrix stored at node `n`.
pub open spec fn rows_of(g: Seq<Op>, n: NodeId) -> Option<Seq<NodeId>> {
    if n < g.len() {
        match g[n as int] {
            Op::Vector(es) => Some(es@),
            Op::Matrix(es) => Some(es@),
            _ => None,
        }
    } else {
        None
    }
}

/// A trace column read `o` rows further down.
pub open spec fn shifted(ta: TraceAccess, o: usize) -> TraceAccess {
    TraceAccess { segment: ta.segment, column: ta.column, row_offset: (ta.row_offset + o) as usize }
}

/// What node `n`, read `o` rows further down, unrolls to: a trace column becomes the shifted
/// column; any other node stands for itself.
pub open spec fn column_or_node(g: Seq<Op>, n: NodeId, o: usize) -> Unrolled {
    match g[n as int] {
        Op::Value(MirValue::TraceAccess(ta)) => Unrolled::Column(shifted(ta, o)),
        _ => Unrolled::Node(n),
    }
}

/// What the access stored at node `acc` unrolls to. An access to a parameter is kept, as it
/// may belong to a loop not unrolled yet. A default access reads its operand further down; an
/// index picks an element of a vector; a matrix access picks an element of a row.
pub open spec fn unrolled_access(g: Seq<Op>, acc: NodeId) -> Unrolled {
    match g[acc as int] {
        Op::Accessor(i, a, o) => if g[i as int] is Parameter {
            Unrolled::Keep
        } else {
            match a {
                AccessType::Default => column_or_node(g, i, o),
                AccessType::Index(k) => column_or_node(g, vector_elems(g, i).unwrap()[k as int], o),
                AccessType::Matrix(r, c) => Unrolled::Node(
                    vector_elems(g, rows_of(g, i).unwrap()[r as int]).unwrap()[c as int],
                ),
                _ => Unrolled::Keep,
            }
        },
        _ => Unrolled::Keep,
    }
}

/// The access stored at `acc` can be unrolled: an index is in bounds of a vector, a matrix
/// access is in bounds of a vector or matrix of vectors, slices are not unrolled, and a
/// shifted trace column stays within `usize`.
pub open spec fn access_ok(g: Seq<Op>, acc: NodeId) -> bool {
    match g[acc as int] {
        Op::Accessor(i, a, o) => !(g[i as int] is Parameter) ==> {
            let shift_ok = |n: NodeId|
                (g[n as int] matches Op::Value(MirValue::TraceAccess(ta)) ==> ta.row_offset + o
                    <= usize::MAX);
            match a {
                AccessType::Default => shift_ok(i),
                AccessType::Index(k) => vector_elems(g, i) is Some && k < vector_elems(
                    g,
                    i,
                ).unwrap().len() && shift_ok(vector_elems(g, i).unwrap()[k as int]),
                AccessType::Matrix(r, c) => rows_of(g, i) is Some && r < rows_of(g, i).unwrap().len()
                    && vector_elems(g, rows_of(g, i).unwrap()[r as int]) is Some && c < vector_elems(
                    g,
                    rows_of(g, i).unwrap()[r as int],
                ).unwrap().len(),
                _ => false,
            }
        },
        _ => false,
    }
}

/// Stores `n` read `o` rows further down when it is a trace column, or gives `n` itself.
fn shift_column(g: &mut Graph, n: NodeId, o: usize) -> (r: NodeId)
    requires
        old(g).wf(),
        n < old(g)@.len(),
        old(g)@[n as int] matches Op::Value(MirValue::TraceAccess(ta)) ==> ta.row_offset + o
            <= usize::MAX,
    ensures
        final(g).wf(),
        final(g).extends(old(g)),
        match column_or_node(old(g)@, n, o) {
            Unrolled::Column(ta) => r == old(g)@.len() && final(g)@ == old(g)@.push(
                Op::Value(MirValue::TraceAccess(ta)),
            ),
            _ => r == n && final(g)@ == old(g)@,
        },
{
    let ta = match &g.nodes[n] {
        Op::Value(MirValue::TraceAccess(ta)) => Some(*ta),
        _ => None,
    };
    match ta {
        Some(ta) => {
            let shifted = TraceAccess {
                segment: ta.segment,
                column: ta.column,
                row_offset: ta.row_offset + o,
            };
            g.insert(Op::Value(MirValue::TraceAccess(shifted)))
        },
        None => {
            proof {
                lemma_extends_refl(g);
            }
            n
        },
    }
}

/// Unrolls an access: see `unrolled_access`. A kept access gives `None`.
pub fn unroll_accessor(g: &mut Graph, accessor: NodeId) -> (r: Result<Option<NodeId>, CompileError>)
    requires
        old(g).wf(),
        accessor < old(g)@.len(),
        access_ok(old(g)@, accessor),
    ensures
        unrolled_accessor(old(g), final(g), accessor, r),
{
    proof {
        assert(operands_below(g@[accessor as int], accessor as nat));
    }
    let (i, a, o) = match &g.nodes[accessor] {
        Op::Accessor(i, a, o) => (*i, *a, *o),
        _ => (0, AccessType::Default, 0),
    };
    let is_param = match &g.nodes[i] {
        Op::Parameter(..) => true,
        _ => false,
    };
    if is_param {
        proof {
            lemma_extends_refl(g);
        }
        return Ok(None);
    }
    match a {
        AccessType::Default => Ok(Some(shift_column(g, i, o))),
        AccessType::Index(k) => {
            let child = match &g.nodes[i] {
                Op::Vector(es) => es[k],
                _ => 0,
            };
            proof {
                assert(operands_below(g@[i as int], i as nat));
            }
            Ok(Some(shift_column(g, child, o)))
        },
        _ => {
            let (r, c) = match a {
                AccessType::Matrix(r, c) => (r, c),
                _ => (0, 0),
            };
            let row = match &g.nodes[i] {
                Op::Vector(es) => es[r],
                Op::Matrix(es) => es[r],
                _ => 0,
            };
            let elem = match &g.nodes[row] {
                Op::Vector(es) => es[c],
                _ => 0,
            };
            proof {
                lemma_extends_refl(g);
            }
            Ok(Some(elem))
        },
    }
}

/// An access that unrolls to a trace column has the value of that column; one that unrolls to
/// a stored node, with no row offset, has the value of that node (for a matrix access, when it
/// reads a matrix).
pub proof fn lemma_unrolled_access_value(g: &Graph, acc: NodeId, env: Env, s: int)
    requires
        g.wf(),
        acc < g@.len(),
        access_ok(g@, acc),
        g@[acc as int] matches Op::Accessor(i, a, o) && (o == 0 || unrolled_access(g@, acc) is Column)
            && (a is Matrix ==> g@[i as int] is Matrix),
    ensures
        match unrolled_access(g@, acc) {
            Unrolled::Column(ta) => eval_at(Term::Value(MirValue::TraceAccess(ta)), env, s) == eval_at(
                term(g@, acc as nat),
                env,
                s,
            ),
            Unrolled::Node(n) => eval_at(term(g@, n as nat), env, s) == eval_at(
                term(g@, acc as nat),
                env,
                s,
            ),
            Unrolled::Keep => true,
        },
{
    assert(operands_below(g@[acc as int], acc as nat));
    let (i, a, o) = match g@[acc as int] {
        Op::Accessor(i, a, o) => (i, a, o),
        _ => arbitrary(),
    };
    assert(term(g@, acc as nat) == Term::Accessor(Box::new(term(g@, i as nat)), a, o));
    if !(g@[i as int] is Parameter) {
        match a {
            AccessType::Default => {
                assert(eval_at(term(g@, acc as nat), env, s) == eval_at(term(g@, i as nat), env, s + o));
                if let Op::Value(MirValue::TraceAccess(ta)) = g@[i as int] {
                    assert(term(g@, i as nat) == Term::Value(MirValue::TraceAccess(ta)));
                    assert(eval_at(term(g@, i as nat), env, s + o) == (env.trace)(
                        ta.segment,
                        ta.column,
                        ta.row_offset + (s + o),
                    ));
                }
            },
            AccessType::Index(k) => {
                lemma_vector_term(g, i);
                let es = vector_elems(g@, i).unwrap();
                let child = es[k as int];
                assert(param_terms(g@, es)[k as int] == term(g@, child as nat));
                assert(eval_at(term(g@, acc as nat), env, s) == eval_at(term(g@, child as nat), env, s + o));
                if let Op::Value(MirValue::TraceAccess(ta)) = g@[child as int] {
                    assert(term(g@, child as nat) == Term::Value(MirValue::TraceAccess(ta)));
                    assert(eval_at(term(g@, child as nat), env, s + o) == (env.trace)(
                        ta.segment,
                        ta.column,
                        ta.row_offset + (s + o),
                    ));
                }
            },
            AccessType::Matrix(r, c) => {
                let rows = rows_of(g@, i).unwrap();
                assert(operands_below(g@[i as int], i as nat));
                lemma_terms_index(g@, rows, i as nat);
                let row = rows[r as int];
                assert(term(g@, i as nat) == Term::Matrix(terms(g@, rows, i as nat)));
                lemma_vector_term(g, row);
                let cols = vector_elems(g@, row).unwrap();
                assert(param_terms(g@, cols)[c as int] == term(g@, cols[c as int] as nat));
                assert(terms(g@, rows, i as nat)[r as int] == term(g@, row as nat));
                assert(eval_at(term(g@, acc as nat), env, s) == eval_at(
                    term(g@, cols[c as int] as nat),
                    env,
                    s + o,
                ));
            },
            _ => {},
        }
    }
}

/// The operations one step of unrolling accepts: arithmetic on vectors of the same length,
/// values whose columns fit, folds over vectors with a known operator, and operations that are
/// left as they are. Selections, calls, loops and parameters are not among them.
pub open spec fn unrollable(g: Seq<Op>, node: NodeId) -> bool {
    match g[node as int] {
        Op::Add(..) | Op::Sub(..) | Op::Mul(..) | Op::Exp(..) => binary_lengths_match(g, node),
        Op::Value(v) => (v matches MirValue::TraceAccessBinding(b) ==> b.offset + b.size
            <= usize::MAX) && (v matches MirValue::RandomValueBinding(b) ==> b.offset + b.size
            <= usize::MAX),
        Op::Fold(it, op, _) => vector_elems(g, it) is Some && (vector_elems(g, it).unwrap().len() > 0
            ==> op != FoldOperator::Undefined),
        Op::Enf(_) | Op::Boundary(..) | Op::Vector(_) | Op::Matrix(_) | Op::Accessor(..) | Op::BusOp(
            ..,
        ) | Op::Nothing => true,
        _ => false,
    }
}

/// Unrolls one node, by its kind of operation: each kind unrolls as its own function says;
/// matrices, accesses, bus operations and empty operations are left as they are.
pub fn unroll_node(g: &mut Graph, node: NodeId) -> (r: Result<Option<NodeId>, CompileError>)
    requires
        old(g).wf(),
        node < old(g)@.len(),
        unrollable(old(g)@, node),
    ensures
        match old(g)@[node as int] {
            Op::Add(..) | Op::Sub(..) | Op::Mul(..) | Op::Exp(..) => unrolled_binary(old(g), final(g), node, r),
            Op::Enf(_) => unrolled_enf(old(g), final(g), node, r),
            Op::Boundary(..) => unrolled_boundary(old(g), final(g), node, r),
            Op::Fold(..) => unrolled_fold(old(g), final(g), node, r),
            Op::Vector(_) => unrolled_vector(old(g), final(g), node, r),
            Op::Value(_) => unrolled_value(old(g), final(g), node, r),
            _ => r == Ok::<Option<NodeId>, CompileError>(None) && *final(g) == *old(g),
        },
{
    let kind: u8 = match &g.nodes[node] {
        Op::Add(..) => 0,
        Op::Sub(..) => 1,
        Op::Mul(..) => 2,
        Op::Exp(..) => 3,
        Op::Enf(_) => 4,
        Op::Boundary(..) => 5,
        Op::Fold(..) => 6,
        Op::Vector(_) => 7,
        Op::Value(_) => 8,
        _ => 9,
    };
    if kind == 0 {
        unroll_add(g, node)
    } else if kind == 1 {
        unroll_sub(g, node)
    } else if kind == 2 {
        unroll_mul(g, node)
    } else if kind == 3 {
        unroll_exp(g, node)
    } else if kind == 4 {
        unroll_enf(g, node)
    } else if kind == 5 {
        unroll_boundary(g, node)
    } else if kind == 6 {
        unroll_fold(g, node)
    } else if kind == 7 {
        unroll_vector(g, node)
    } else if kind == 8 {
        unroll_value(g, node)
    } else {
        Ok(None)
    }
}

/// The selections, element by element, of a condition and two branches of the same length.
pub open spec fn selections(g: Seq<Op>, cs: Seq<NodeId>, ts: Seq<NodeId>, es: Seq<NodeId>) -> Seq<Term> {
    Seq::new(
        cs.len(),
        |i: int|
            Term::If(
                Box::new(term(g, cs[i] as nat)),
                Box::new(term(g, ts[i] as nat)),
                Box::new(term(g, es[i] as nat)),
            ),
    )
}

/// Unrolls a selection over vectors: when the condition and both branches are vectors of the
/// same length, the vector of the selections of their elements; otherwise nothing.
pub fn unroll_if(g: &mut Graph, node: NodeId) -> (r: Result<Option<NodeId>, CompileError>)
    requires
        old(g).wf(),
        node < old(g)@.len(),
        old(g)@[node as int] is If,
    ensures
        final(g).wf(),
        final(g).extends(old(g)),
        ({
            let c = old(g)@[node as int]->If_0;
            let t = old(g)@[node as int]->If_1;
            let e = old(g)@[node as int]->If_2;
            if vector_elems(old(g)@, c) is Some && vector_elems(old(g)@, t) is Some && vector_elems(
                old(g)@,
                e,
            ) is Some && vector_elems(old(g)@, c).unwrap().len() == vector_elems(old(g)@, t).unwrap().len()
                && vector_elems(old(g)@, c).unwrap().len() == vector_elems(old(g)@, e).unwrap().len() {
                r matches Ok(Some(v)) && v < final(g)@.len() && term(final(g)@, v as nat) == Term::Vector(
                    selections(
                        old(g)@,
                        vector_elems(old(g)@, c).unwrap(),
                        vector_elems(old(g)@, t).unwrap(),
                        vector_elems(old(g)@, e).unwrap(),
                    ),
                )
            } else {
                r == Ok::<Option<NodeId>, CompileError>(None) && final(g)@ == old(g)@
            }
        }),
{
    let ghost g0 = *g;
    proof {
        lemma_extends_refl(g);
        assert(operands_below(g@[node as int], node as nat));
    }
    let (c, t, e) = match &g.nodes[node] {
        Op::If(c, t, e) => (*c, *t, *e),
        _ => (0, 0, 0),
    };
    let cs = match &g.nodes[c] {
        Op::Vector(v) => crate::mir::graph::copy_ids(v),
        _ => {
            return Ok(None);
        },
    };
    let ts = match &g.nodes[t] {
        Op::Vector(v) => crate::mir::graph::copy_ids(v),
        _ => {
            return Ok(None);
        },
    };
    let es = match &g.nodes[e] {
        Op::Vector(v) => crate::mir::graph::copy_ids(v),
        _ => {
            return Ok(None);
        },
    };
    if cs.len() != ts.len() || cs.len() != es.len() {
        return Ok(None);
    }
    proof {
        lemma_vector_term(&g0, c);
        lemma_vector_term(&g0, t);
        lemma_vector_term(&g0, e);
    }
    let mut ids: Vec<NodeId> = Vec::new();
    let mut i: usize = 0;
    while i < cs.len()
        invariant
            g.wf(),
            g.extends(&g0),
            i <= cs@.len(),
            cs@.len() == ts@.len(),
            cs@.len() == es@.len(),
            all_below(cs@, g0@.len()),
            all_below(ts@, g0@.len()),
            all_below(es@, g0@.len()),
            ids@.len() == i,
            all_below(ids@, g@.len()),
            param_terms(g@, ids@) == selections(g0@, cs@, ts@, es@).subrange(0, i as int),
        decreases cs@.len() - i,
    {
        let ghost gi = *g;
        let n = g.insert(Op::If(cs[i], ts[i], es[i]));
        proof {
            lemma_extends_trans(&g0, &gi, g);
            lemma_param_terms_kept(&gi, g, ids@);
            lemma_term_kept(&g0, g, cs@[i as int] as nat);
            lemma_term_kept(&g0, g, ts@[i as int] as nat);
            lemma_term_kept(&g0, g, es@[i as int] as nat);
        }
        let ghost before = ids@;
        ids.push(n);
        proof {
            assert(param_terms(g@, ids@) =~= param_terms(g@, before).push(term(g@, n as nat)));
            assert(selections(g0@, cs@, ts@, es@).subrange(0, i + 1) =~= selections(
                g0@,
                cs@,
                ts@,
                es@,
            ).subrange(0, i as int).push(selections(g0@, cs@, ts@, es@)[i as int]));
        }
        i = i + 1;
    }
    let ghost gv = *g;
    let v = mk_vector(g, ids);
    proof {
        lemma_extends_trans(&g0, &gv, g);
        assert(selections(g0@, cs@, ts@, es@).subrange(0, i as int) =~= selections(g0@, cs@, ts@, es@));
    }
    Ok(Some(v))
}

/// The products of a factor with the elements of a vector, or with the operand itself when
/// it is not a vector.
pub open spec fn products(g: Seq<Op>, factor: Term, operand: NodeId) -> Seq<Term> {
    match vector_elems(g, operand) {
        Some(xs) => Seq::new(
            xs.len(),
            |i: int| Term::Mul(Box::new(factor), Box::new(term(g, xs[i] as nat))),
        ),
        None => seq![Term::Mul(Box::new(factor), Box::new(term(g, operand as nat)))],
    }
}

/// Turns a selection into arithmetic: the vector of the condition times each element of the
/// then branch, followed by one minus the condition times each element of the else branch
/// (a branch that is not a vector counts as its only element).
pub fn arithmetize_if(g: &mut Graph, node: NodeId) -> (r: NodeId)
    requires
        old(g).wf(),
        node < old(g)@.len(),
        old(g)@[node as int] is If,
    ensures
        final(g).wf(),
        final(g).extends(old(g)),
        r < final(g)@.len(),
        ({
            let c = term(old(g)@, old(g)@[node as int]->If_0 as nat);
            let t = old(g)@[node as int]->If_1;
            let e = old(g)@[node as int]->If_2;
            let not_c = Term::Sub(Box::new(Term::Value(MirValue::Constant(1))), Box::new(c));
            term(final(g)@, r as nat) == Term::Vector(products(old(g)@, c, t) + products(old(g)@, not_c, e))
        }),
{
    let ghost g0 = *g;
    proof {
        lemma_extends_refl(g);
        assert(operands_below(g@[node as int], node as nat));
    }
    let (c, t, e) = match &g.nodes[node] {
        Op::If(c, t, e) => (*c, *t, *e),
        _ => (0, 0, 0),
    };
    let ghost ct = term(g0@, c as nat);
    let mut ids: Vec<NodeId> = Vec::new();
    let then_elems = match &g.nodes[t] {
        Op::Vector(v) => crate::mir::graph::copy_ids(v),
        _ => vec![t],
    };
    proof {
        if vector_elems(g0@, t) is Some {
            lemma_vector_term(&g0, t);
        }
        assert(crate::mir::subst::param_terms(g@, ids@) =~= Seq::<Term>::empty());
    }
    let mut i: usize = 0;
    while i < then_elems.len()
        invariant
            g.wf(),
            g.extends(&g0),
            c < g0@.len(),
            ct == term(g0@, c as nat),
            i <= then_elems@.len(),
            all_below(then_elems@, g0@.len()),
            then_elems@.len() == products(g0@, ct, t).len(),
            forall|k: int| 0 <= k < then_elems@.len() ==> #[trigger] products(g0@, ct, t)[k]
                == Term::Mul(Box::new(ct), Box::new(term(g0@, then_elems@[k] as nat))),
            all_below(ids@, g@.len()),
            param_terms(g@, ids@) == products(g0@, ct, t).subrange(0, i as int),
        decreases then_elems@.len() - i,
    {
        let ghost gi = *g;
        let n = g.insert(Op::Mul(c, then_elems[i]));
        proof {
            lemma_extends_trans(&g0, &gi, g);
            lemma_param_terms_kept(&gi, g, ids@);
            lemma_term_kept(&g0, g, c as nat);
            lemma_term_kept(&g0, g, then_elems@[i as int] as nat);
        }
        let ghost before = ids@;
        ids.push(n);
        proof {
            assert(param_terms(g@, ids@) =~= param_terms(g@, before).push(term(g@, n as nat)));
            assert(products(g0@, ct, t).subrange(0, i + 1) =~= products(g0@, ct, t).subrange(
                0,
                i as int,
            ).push(products(g0@, ct, t)[i as int]));
        }
        i = i + 1;
    }
    proof {
        assert(products(g0@, ct, t).subrange(0, i as int) =~= products(g0@, ct, t));
    }
    let ghost not_c = Term::Sub(Box::new(Term::Value(MirValue::Constant(1))), Box::new(ct));
    let else_elems = match &g.nodes[e] {
        Op::Vector(v) => crate::mir::graph::copy_ids(v),
        _ => vec![e],
    };
    proof {
        if vector_elems(g0@, e) is Some {
            assert(g@[e as int] == g0@[e as int]) by {
                assert(g@.subrange(0, g0@.len() as int)[e as int] == g@[e as int]);
            }
            lemma_vector_term(&g0, e);
        } else {
            assert(g@[e as int] == g0@[e as int]) by {
                assert(g@.subrange(0, g0@.len() as int)[e as int] == g@[e as int]);
            }
        }
    }
    let mut j: usize = 0;
    while j < else_elems.len()
        invariant
            g.wf(),
            g.extends(&g0),
            c < g0@.len(),
            ct == term(g0@, c as nat),
            not_c == Term::Sub(Box::new(Term::Value(MirValue::Constant(1))), Box::new(ct)),
            j <= else_elems@.len(),
            all_below(else_elems@, g0@.len()),
            else_elems@.len() == products(g0@, not_c, e).len(),
            forall|k: int| 0 <= k < else_elems@.len() ==> #[trigger] products(g0@, not_c, e)[k]
                == Term::Mul(Box::new(not_c), Box::new(term(g0@, else_elems@[k] as nat))),
            all_below(ids@, g@.len()),
            param_terms(g@, ids@) == products(g0@, ct, t) + products(g0@, not_c, e).subrange(0, j as int),
        decreases else_elems@.len() - j,
    {
        let ghost gj = *g;
        let one = g.insert(Op::Value(MirValue::Constant(1)));
        let ghost g1 = *g;
        let diff = g.insert(Op::Sub(one, c));
        let ghost g2 = *g;
        let n = g.insert(Op::Mul(diff, else_elems[j]));
        proof {
            lemma_extends_trans(&gj, &g1, &g2);
            lemma_extends_trans(&gj, &g2, g);
            lemma_extends_trans(&g0, &gj, g);
            lemma_param_terms_kept(&gj, g, ids@);
            lemma_extends_trans(&g0, &gj, &g1);
            lemma_term_kept(&g0, &g1, c as nat);
            lemma_term_kept(&g1, &g2, one as nat);
            lemma_term_kept(&g1, &g2, c as nat);
            lemma_term_kept(&g2, g, diff as nat);
            lemma_term_kept(&g0, g, else_elems@[j as int] as nat);
        }
        let ghost before = ids@;
        ids.push(n);
        proof {
            assert(param_terms(g@, ids@) =~= param_terms(g@, before).push(term(g@, n as nat)));
            assert(products(g0@, not_c, e).subrange(0, j + 1) =~= products(g0@, not_c, e).subrange(
                0,
                j as int,
            ).push(products(g0@, not_c, e)[j as int]));
        }
        j = j + 1;
    }
    proof {
        assert(products(g0@, not_c, e).subrange(0, j as int) =~= products(g0@, not_c, e));
    }
    let ghost gv = *g;
    let v = mk_vector(g, ids);
    proof {
        lemma_extends_trans(&g0, &gv, g);
    }
    v
}

/// With a condition that is zero or one, the product of the condition with the then branch
/// plus the product of one minus the condition with the else branch is the selected branch.
pub proof fn lemma_arithmetized_selection(c: Term, t: Term, e: Term, env: Env, shift: int)
    requires
        eval_at(c, env, shift) == 0 || eval_at(c, env, shift) == 1,
    ensures
        eval_at(Term::Mul(Box::new(c), Box::new(t)), env, shift) + eval_at(
            Term::Mul(
                Box::new(Term::Sub(Box::new(Term::Value(MirValue::Constant(1))), Box::new(c))),
                Box::new(e),
            ),
            env,
            shift,
        ) == if eval_at(c, env, shift) == 1 {
            eval_at(t, env, shift)
        } else {
            eval_at(e, env, shift)
        },
{
    let cv = eval_at(c, env, shift);
    let tv = eval_at(t, env, shift);
    let ev = eval_at(e, env, shift);
    let one = Term::Value(MirValue::Constant(1));
    let not_c = Term::Sub(Box::new(one), Box::new(c));
    assert(eval_at(one, env, shift) == 1);
    assert(eval_at(not_c, env, shift) == 1 - cv);
    assert(eval_at(Term::Mul(Box::new(c), Box::new(t)), env, shift) == cv * tv);
    assert(eval_at(Term::Mul(Box::new(not_c), Box::new(e)), env, shift) == (1 - cv) * ev);
    assert(cv * tv + (1 - cv) * ev == if cv == 1 {
        tv
    } else {
        ev
    }) by (nonlinear_arith)
        requires
            cv == 0 || cv == 1,
    ;
}


/// The sum of a list of numbers.
pub open spec fn sum_of(vs: Seq<int>) -> int
    decreases vs.len(),
{
    if vs.len() == 0 {
        0
    } else {
        sum_of(vs.drop_last()) + vs.last()
    }
}

/// The product of a list of numbers.
pub open spec fn product_of(vs: Seq<int>) -> int
    decreases vs.len(),
{
    if vs.len() == 0 {
        1
    } else {
        product_of(vs.drop_last()) * vs.last()
    }
}

/// An unrolled fold evaluates, at every row, to its initial value plus the sum of its
/// elements (for an addition), or times their product (for a multiplication).
pub proof fn lemma_fold_value(acc: Term, es: Seq<Term>, env: Env, shift: int)
    ensures
        eval_at(fold_term(FoldOperator::Add, acc, es), env, shift) == eval_at(acc, env, shift) + sum_of(
            es.map_values(|e: Term| eval_at(e, env, shift)),
        ),
        eval_at(fold_term(FoldOperator::Mul, acc, es), env, shift) == eval_at(acc, env, shift)
            * product_of(es.map_values(|e: Term| eval_at(e, env, shift))),
    decreases es.len(),
{
    let vs = es.map_values(|e: Term| eval_at(e, env, shift));
    if es.len() > 0 {
        lemma_fold_value(acc, es.drop_last(), env, shift);
        assert(es.drop_last().map_values(|e: Term| eval_at(e, env, shift)) =~= vs.drop_last());
        let a = eval_at(acc, env, shift);
        let p = product_of(vs.drop_last());
        assert(a * (p * vs.last()) == (a * p) * vs.last()) by (nonlinear_arith);
    }
}

/// Unrolling an addition, a subtraction or a multiplication of two vectors gives a vector of as
/// many elements, each of which evaluates, at every row, to the sum, the difference or the
/// product of the values of the operands' elements at that place.
pub proof fn lemma_unrolled_binary_value(
    before: &Graph,
    after: &Graph,
    node: NodeId,
    r: Result<Option<NodeId>, CompileError>,
    env: Env,
    shift: int,
)
    requires
        before.wf(),
        node < before@.len(),
        before@[node as int] is Add || before@[node as int] is Sub || before@[node as int] is Mul,
        unrolled_binary(before, after, node, r),
        vector_elems(before@, bin_operands(before@[node as int]).0) is Some,
        vector_elems(before@, bin_operands(before@[node as int]).1) is Some,
    ensures
        ({
            let op = before@[node as int];
            let ls = vector_elems(before@, bin_operands(op).0).unwrap();
            let rs = vector_elems(before@, bin_operands(op).1).unwrap();
            r matches Ok(Some(v)) && term(after@, v as nat) matches Term::Vector(ts) && ts.len()
                == ls.len() && forall|i: int|
                0 <= i < ts.len() ==> {
                    let a = eval_at(term(before@, ls[i] as nat), env, shift);
                    let b = eval_at(term(before@, rs[i] as nat), env, shift);
                    #[trigger] eval_at(ts[i], env, shift) == match op {
                        Op::Add(..) => a + b,
                        Op::Sub(..) => a - b,
                        _ => a * b,
                    }
                }
        }),
{
}

} // verus!
