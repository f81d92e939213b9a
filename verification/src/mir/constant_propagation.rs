//! Constant folding: every operation whose result can be deduced from constant operands is
//! replaced by that result. Operands are folded before the operations that use them, and a
//! replaced node keeps its index, so every operation referring to it sees the new value.
use vstd::prelude::*;
use crate::ast::AccessType;
use crate::mir::graph::{all_below, operands_below, CompileError, Graph, Mir, MirValue, NodeId, Op};
use crate::mir::term::{lemma_terms_index, lemma_term_extend, term, terms, Term};
use crate::mir::eval::{eval_at, pow, Env};

verus! {

/// The literal constant stored at node `j`, if it is one.
pub open spec fn lit(g: Seq<Op>, j: int) -> Option<u64> {
    if 0 <= j < g.len() {
        match g[j] {
            Op::Value(MirValue::Constant(c)) => Some(c),
            _ => None,
        }
    } else {
        None
    }
}

/// Node `j` and everything below it are constants. A parameter never counts as a constant,
/// nor does an empty operation.
pub open spec fn is_const(g: Seq<Op>, j: nat) -> bool
    decreases j, 1nat, 0nat,
{
    if j >= g.len() {
        false
    } else {
        match g[j as int] {
            Op::Value(v) => v is Constant,
            Op::Parameter(..) => false,
            Op::Add(l, r) => l < j && r < j && is_const(g, l as nat) && is_const(g, r as nat),
            Op::Sub(l, r) => l < j && r < j && is_const(g, l as nat) && is_const(g, r as nat),
            Op::Mul(l, r) => l < j && r < j && is_const(g, l as nat) && is_const(g, r as nat),
            Op::Exp(l, r) => l < j && r < j && is_const(g, l as nat) && is_const(g, r as nat),
            Op::Enf(e) => e < j && is_const(g, e as nat),
            Op::Boundary(_, e) => e < j && is_const(g, e as nat),
            Op::If(c, t, e) => c < j && t < j && e < j && is_const(g, c as nat) && is_const(
                g,
                t as nat,
            ) && is_const(g, e as nat),
            Op::Fold(i, _, a) => i < j && a < j && is_const(g, i as nat) && is_const(g, a as nat),
            Op::Vector(es) => all_const(g, es@, j),
            Op::Matrix(rows) => all_const(g, rows@, j),
            Op::Accessor(i, _, _) => i < j && is_const(g, i as nat),
            Op::For(its, body, sel) => all_const(g, its@, j) && body < j && is_const(g, body as nat)
                && match sel {
                Some(s) => s < j && is_const(g, s as nat),
                None => true,
            },
            Op::Call(_, args) => all_const(g, args@, j),
            Op::BusOp(_, _, args, latch) => all_const(g, args@, j) && latch < j && is_const(
                g,
                latch as nat,
            ),
            Op::Nothing => false,
        }
    }
}

/// Every node of `ids` is below `bound` and a constant.
pub open spec fn all_const(g: Seq<Op>, ids: Seq<NodeId>, bound: nat) -> bool
    decreases bound, 0nat, ids.len(),
{
    if ids.len() == 0 {
        true
    } else {
        all_const(g, ids.drop_last(), bound) && ids.last() < bound && is_const(
            g,
            ids.last() as nat,
        )
    }
}

proof fn lemma_all_const(g: Seq<Op>, ids: Seq<NodeId>, bound: nat)
    ensures
        all_const(g, ids, bound) <==> forall|m: int| 0 <= m < ids.len() ==> #[trigger] ids[m]
            < bound && is_const(g, ids[m] as nat),
    decreases ids.len(),
{
    if ids.len() > 0 {
        lemma_all_const(g, ids.drop_last(), bound);
        if all_const(g, ids, bound) {
            assert forall|m: int| 0 <= m < ids.len() implies #[trigger] ids[m] < bound && is_const(
                g,
                ids[m] as nat,
            ) by {
                if m < ids.len() - 1 {
                    assert(ids.drop_last()[m] == ids[m]);
                }
            }
        }
        if forall|m: int| 0 <= m < ids.len() ==> #[trigger] ids[m] < bound && is_const(
            g,
            ids[m] as nat,
        ) {
            assert forall|m: int| 0 <= m < ids.drop_last().len() implies #[trigger] ids.drop_last()[m]
                < bound && is_const(g, ids.drop_last()[m] as nat) by {
                assert(ids.drop_last()[m] == ids[m]);
            }
            assert(ids[ids.len() - 1] == ids.last());
        }
    }
}

/// A constant leaf.
pub open spec fn constant_op(c: u64) -> Op {
    Op::Value(MirValue::Constant(c))
}

/// What node `k` is replaced by, if its result can be deduced from constants: an arithmetic
/// operation on two literal constants becomes its result; a default access to a literal
/// constant becomes that constant; a constant vector indexed at a literal constant becomes that
/// constant, and likewise an element of a constant matrix; a constant matrix indexed by row
/// becomes a default access to that row.
pub open spec fn fold_op(g: Seq<Op>, k: nat) -> Option<Op> {
    if k >= g.len() {
        None
    } else {
        match g[k as int] {
            Op::Add(l, r) => match (lit(g, l as int), lit(g, r as int)) {
                (Some(a), Some(b)) => Some(constant_op((a + b) as u64)),
                _ => None,
            },
            Op::Sub(l, r) => match (lit(g, l as int), lit(g, r as int)) {
                (Some(a), Some(b)) => Some(constant_op((a - b) as u64)),
                _ => None,
            },
            Op::Mul(l, r) => match (lit(g, l as int), lit(g, r as int)) {
                (Some(a), Some(b)) => Some(constant_op((a * b) as u64)),
                _ => None,
            },
            Op::Exp(l, r) => match (lit(g, l as int), lit(g, r as int)) {
                (Some(a), Some(b)) => Some(constant_op(pow(a as int, b as nat) as u64)),
                _ => None,
            },
            Op::Accessor(i, access, _) => if i < k && is_const(g, i as nat) {
                match access {
                    AccessType::Default => match lit(g, i as int) {
                        Some(a) => Some(constant_op(a)),
                        None => None,
                    },
                    AccessType::Index(m) => match g[i as int] {
                        Op::Vector(es) => if m < es@.len() {
                            match lit(g, es@[m as int] as int) {
                                Some(a) => Some(constant_op(a)),
                                None => None,
                            }
                        } else {
                            None
                        },
                        Op::Matrix(rows) => if m < rows@.len() && is_const(
                            g,
                            rows@[m as int] as nat,
                        ) {
                            Some(Op::Accessor(rows@[m as int], AccessType::Default, 0))
                        } else {
                            None
                        },
                        _ => None,
                    },
                    AccessType::Matrix(r, c) => match g[i as int] {
                        Op::Matrix(rows) => if r < rows@.len() && rows@[r as int] < g.len() {
                            match g[rows@[r as int] as int] {
                                Op::Vector(es) => if c < es@.len() {
                                    match lit(g, es@[c as int] as int) {
                                        Some(a) => Some(constant_op(a)),
                                        None => None,
                                    }
                                } else {
                                    None
                                },
                                _ => None,
                            }
                        } else {
                            None
                        },
                        _ => None,
                    },
                    _ => None,
                }
            } else {
                None
            },
            _ => None,
        }
    }
}

/// Folding node `k` does not fail: arithmetic on literal constants stays within `u64` (an
/// exponent also below 2^32), and an access to a constant has a supported form with its
/// indices in bounds. Slices of constants are not supported.
pub open spec fn safe_at(g: Seq<Op>, k: nat) -> bool {
    k < g.len() ==> match g[k as int] {
        Op::Add(l, r) => match (lit(g, l as int), lit(g, r as int)) {
            (Some(a), Some(b)) => a + b <= u64::MAX,
            _ => true,
        },
        Op::Sub(l, r) => match (lit(g, l as int), lit(g, r as int)) {
            (Some(a), Some(b)) => a >= b,
            _ => true,
        },
        Op::Mul(l, r) => match (lit(g, l as int), lit(g, r as int)) {
            (Some(a), Some(b)) => a * b <= u64::MAX,
            _ => true,
        },
        Op::Exp(l, r) => match (lit(g, l as int), lit(g, r as int)) {
            (Some(a), Some(b)) => b < 0x1_0000_0000 && pow(a as int, b as nat) <= u64::MAX,
            _ => true,
        },
        Op::Accessor(i, access, _) => i < k && is_const(g, i as nat) ==> match access {
            AccessType::Default => true,
            AccessType::Index(m) => match g[i as int] {
                Op::Vector(es) => m < es@.len(),
                Op::Matrix(rows) => m < rows@.len(),
                _ => false,
            },
            AccessType::Matrix(r, c) => match g[i as int] {
                Op::Matrix(rows) => r < rows@.len() && rows@[r as int] < g.len() && {
                    let row = rows@[r as int];
                    match g[row as int] {
                        Op::Vector(es) => c < es@.len(),
                        _ => false,
                    }
                },
                _ => false,
            },
            _ => false,
        },
        _ => true,
    }
}

/// `g` with node `k` folded.
pub open spec fn fold_at(g: Seq<Op>, k: nat) -> Seq<Op> {
    match fold_op(g, k) {
        Some(op) => g.update(k as int, op),
        None => g,
    }
}

/// `g` with its first `n` nodes folded, in order.
pub open spec fn folded(g: Seq<Op>, n: nat) -> Seq<Op>
    decreases n,
{
    if n == 0 {
        g
    } else {
        fold_at(folded(g, (n - 1) as nat), (n - 1) as nat)
    }
}

/// Folding the first `n` nodes of `g`, in order, does not fail.
pub open spec fn fold_safe(g: Seq<Op>, n: nat) -> bool
    decreases n,
{
    if n == 0 {
        true
    } else {
        fold_safe(g, (n - 1) as nat) && safe_at(folded(g, (n - 1) as nat), (n - 1) as nat)
    }
}

proof fn lemma_pow_nonneg(b: int, e: nat)
    requires
        b >= 0,
    ensures
        pow(b, e) >= 0,
    decreases e,
{
    if e > 0 {
        lemma_pow_nonneg(b, (e - 1) as nat);
        assert(b * pow(b, (e - 1) as nat) >= 0) by (nonlinear_arith)
            requires
                b >= 0,
                pow(b, (e - 1) as nat) >= 0,
        ;
    }
}

proof fn lemma_pow_one(e: nat)
    ensures
        pow(1, e) == 1,
    decreases e,
{
    if e > 0 {
        lemma_pow_one((e - 1) as nat);
    }
}

/// Powers of a base of at least one grow with the exponent.
proof fn lemma_pow_mono(b: int, i: nat, e: nat)
    requires
        b >= 1,
        i <= e,
    ensures
        pow(b, i) <= pow(b, e),
    decreases e,
{
    if i < e {
        lemma_pow_mono(b, i, (e - 1) as nat);
        lemma_pow_nonneg(b, (e - 1) as nat);
        assert(pow(b, (e - 1) as nat) <= b * pow(b, (e - 1) as nat)) by (nonlinear_arith)
            requires
                b >= 1,
                pow(b, (e - 1) as nat) >= 0,
        ;
    }
}

/// `b` to the power `e`, when it fits in a `u64`.
fn pow_u64(b: u64, e: u64) -> (r: u64)
    requires
        pow(b as int, e as nat) <= u64::MAX,
    ensures
        r == pow(b as int, e as nat),
{
    if b == 0 {
        if e == 0 {
            1
        } else {
            assert(pow(0, e as nat) == 0 * pow(0, (e - 1) as nat));
            0
        }
    } else if b == 1 {
        proof {
            lemma_pow_one(e as nat);
        }
        1
    } else {
        let mut r: u64 = 1;
        let mut i: u64 = 0;
        while i < e
            invariant
                b >= 2,
                i <= e,
                r == pow(b as int, i as nat),
                pow(b as int, e as nat) <= u64::MAX,
            decreases e - i,
        {
            proof {
                lemma_pow_mono(b as int, (i + 1) as nat, e as nat);
                assert(pow(b as int, (i + 1) as nat) == b * pow(b as int, i as nat));
            }
            r = r * b;
            i = i + 1;
        }
        r
    }
}

/// The literal constant stored at node `j`, if it is one.
fn literal(g: &Graph, j: NodeId) -> (r: Option<u64>)
    requires
        j < g@.len(),
    ensures
        r == lit(g@, j as int),
{
    match &g.nodes[j] {
        Op::Value(MirValue::Constant(c)) => Some(*c),
        _ => None,
    }
}

/// What an access at node `k` to `i` is replaced by, if anything.
fn fold_accessor(g: &Graph, k: NodeId, i: NodeId, access: AccessType) -> (r: Option<Op>)
    requires
        g.wf(),
        k < g@.len(),
        g@[k as int] matches Op::Accessor(i0, a0, _) && i0 == i && a0 == access,
        safe_at(g@, k as nat),
    ensures
        r == fold_op(g@, k as nat),
        r matches Some(op) ==> operands_below(op, k as nat),
{
    if !is_constant(g, i) {
        return None;
    }
    match access {
        AccessType::Default => match literal(g, i) {
            Some(a) => Some(Op::Value(MirValue::Constant(a))),
            None => None,
        },
        AccessType::Index(m) => match &g.nodes[i] {
            Op::Vector(es) => match literal(g, es[m]) {
                Some(a) => Some(Op::Value(MirValue::Constant(a))),
                None => None,
            },
            Op::Matrix(rows) => {
                let row = rows[m];
                if is_constant(g, row) {
                    Some(Op::Accessor(row, AccessType::Default, 0))
                } else {
                    None
                }
            },
            _ => None,
        },
        AccessType::Matrix(r, c) => match &g.nodes[i] {
            Op::Matrix(rows) => {
                let row = rows[r];
                match &g.nodes[row] {
                    Op::Vector(es) => match literal(g, es[c]) {
                        Some(a) => Some(Op::Value(MirValue::Constant(a))),
                        None => None,
                    },
                    _ => None,
                }
            },
            _ => None,
        },
        _ => None,
    }
}

/// What node `k` is replaced by, if anything.
fn fold_replacement(g: &Graph, k: NodeId) -> (r: Option<Op>)
    requires
        g.wf(),
        k < g@.len(),
        safe_at(g@, k as nat),
    ensures
        r == fold_op(g@, k as nat),
        r matches Some(op) ==> operands_below(op, k as nat),
{
    match &g.nodes[k] {
        Op::Add(l, r) => match (literal(g, *l), literal(g, *r)) {
            (Some(a), Some(b)) => Some(Op::Value(MirValue::Constant(a + b))),
            _ => None,
        },
        Op::Sub(l, r) => match (literal(g, *l), literal(g, *r)) {
            (Some(a), Some(b)) => Some(Op::Value(MirValue::Constant(a - b))),
            _ => None,
        },
        Op::Mul(l, r) => match (literal(g, *l), literal(g, *r)) {
            (Some(a), Some(b)) => Some(Op::Value(MirValue::Constant(a * b))),
            _ => None,
        },
        Op::Exp(l, r) => match (literal(g, *l), literal(g, *r)) {
            (Some(a), Some(b)) => Some(Op::Value(MirValue::Constant(pow_u64(a, b)))),
            _ => None,
        },
        Op::Accessor(i, access, _) => fold_accessor(g, k, *i, *access),
        _ => None,
    }
}

/// Folds node `k`.
fn fold_node(g: &mut Graph, k: NodeId)
    requires
        old(g).wf(),
        k < old(g)@.len(),
        safe_at(old(g)@, k as nat),
    ensures
        final(g).wf(),
        final(g)@ == fold_at(old(g)@, k as nat),
        final(g).boundary_roots@ == old(g).boundary_roots@,
        final(g).integrity_roots@ == old(g).integrity_roots@,
        final(g).buses@ == old(g).buses@,
{
    if let Some(op) = fold_replacement(g, k) {
        g.replace(k, op);
    }
}

/// Whether node `j` and everything below it are constants.
fn is_constant(g: &Graph, j: NodeId) -> (r: bool)
    requires
        g.wf(),
        j < g@.len(),
    ensures
        r == is_const(g@, j as nat),
    decreases j, 1nat,
{
    match &g.nodes[j] {
        Op::Value(v) => match v {
            MirValue::Constant(_) => true,
            _ => false,
        },
        Op::Parameter(..) => false,
        Op::Add(l, r) => is_constant(g, *l) && is_constant(g, *r),
        Op::Sub(l, r) => is_constant(g, *l) && is_constant(g, *r),
        Op::Mul(l, r) => is_constant(g, *l) && is_constant(g, *r),
        Op::Exp(l, r) => is_constant(g, *l) && is_constant(g, *r),
        Op::Enf(e) => is_constant(g, *e),
        Op::Boundary(_, e) => is_constant(g, *e),
        Op::If(c, t, e) => is_constant(g, *c) && is_constant(g, *t) && is_constant(g, *e),
        Op::Fold(i, _, a) => is_constant(g, *i) && is_constant(g, *a),
        Op::Vector(es) => all_constant(g, es, j),
        Op::Matrix(rows) => all_constant(g, rows, j),
        Op::Accessor(i, _, _) => is_constant(g, *i),
        Op::For(its, body, sel) => {
            if !all_constant(g, its, j) || !is_constant(g, *body) {
                false
            } else {
                match sel {
                    Some(s) => is_constant(g, *s),
                    None => true,
                }
            }
        },
        Op::Call(_, args) => all_constant(g, args, j),
        Op::BusOp(_, _, args, latch) => all_constant(g, args, j) && is_constant(g, *latch),
        Op::Nothing => false,
    }
}

/// Whether every node of `ids` is a constant.
fn all_constant(g: &Graph, ids: &Vec<NodeId>, bound: NodeId) -> (r: bool)
    requires
        g.wf(),
        bound <= g@.len(),
        all_below(ids@, bound as nat),
    ensures
        r == all_const(g@, ids@, bound as nat),
    decreases bound, 0nat,
{
    proof {
        lemma_all_const(g@, ids@, bound as nat);
    }
    let mut m: usize = 0;
    while m < ids.len()
        invariant
            g.wf(),
            bound <= g@.len(),
            all_below(ids@, bound as nat),
            m <= ids@.len(),
            forall|x: int| 0 <= x < m ==> is_const(g@, #[trigger] ids@[x] as nat),
        decreases ids@.len() - m,
    {
        if !is_constant(g, ids[m]) {
            proof {
                lemma_all_const(g@, ids@, bound as nat);
                assert(!(ids@[m as int] < bound && is_const(g@, ids@[m as int] as nat)));
            }
            return false;
        }
        m = m + 1;
    }
    true
}

proof fn lemma_fold_safe_prefix(g: Seq<Op>, n: nat, m: nat)
    requires
        m <= n,
        fold_safe(g, n),
    ensures
        fold_safe(g, m),
    decreases n,
{
    if m < n {
        lemma_fold_safe_prefix(g, (n - 1) as nat, m);
    }
}

proof fn lemma_folded_len(g: Seq<Op>, n: nat)
    ensures
        folded(g, n).len() == g.len(),
    decreases n,
{
    if n > 0 {
        lemma_folded_len(g, (n - 1) as nat);
    }
}

/// Every matrix stores vectors as its rows.
pub open spec fn matrices_wf(g: Seq<Op>) -> bool {
    forall|k: int|
        0 <= k < g.len() ==> (#[trigger] g[k] matches Op::Matrix(rows) ==> forall|m: int|
            0 <= m < rows@.len() ==> rows@[m] < g.len() && g[rows@[m] as int] is Vector)
}

/// Node `j` has the same value in `g1` and in `g2`, at every row and for every assignment of
/// the leaves.
pub open spec fn same_values(g1: Seq<Op>, g2: Seq<Op>, j: nat) -> bool {
    forall|env: Env, s: int| #[trigger] eval_at(term(g2, j), env, s) == eval_at(term(g1, j), env, s)
}

/// Replacing one node, which is neither a vector nor a matrix, by an operation of the same
/// value keeps the value of every node.
proof fn lemma_replace_keeps_values(h: Seq<Op>, k: nat, op: Op, j: nat)
    requires
        crate::mir::graph::nodes_wf(h),
        k < h.len(),
        j < h.len(),
        operands_below(op, k),
        !(h[k as int] is Vector),
        !(h[k as int] is Matrix),
        !(op is Vector),
        !(op is Matrix),
        same_values(h, h.update(k as int, op), k),
    ensures
        same_values(h, h.update(k as int, op), j),
    decreases j, 1nat,
{
    let h2 = h.update(k as int, op);
    if j < k {
        let p = h.subrange(0, k as int);
        assert(h2.subrange(0, k as int) =~= p);
        assert(h.subrange(0, k as int) =~= p);
        lemma_term_extend(p, h, j);
        lemma_term_extend(p, h2, j);
    } else if j > k {
        assert(h2[j as int] == h[j as int]);
        assert(operands_below(h[j as int], j));
        match h[j as int] {
            Op::Add(l, r) => {
                lemma_replace_keeps_values(h, k, op, l as nat);
                lemma_replace_keeps_values(h, k, op, r as nat);
                assert(term(h2, j) == Term::Add(Box::new(term(h2, l as nat)), Box::new(term(h2, r as nat))));
                assert(term(h, j) == Term::Add(Box::new(term(h, l as nat)), Box::new(term(h, r as nat))));
                assert forall|env: Env, s: int| #[trigger] eval_at(term(h2, j), env, s) == eval_at(term(h, j), env, s) by {
                    assert(eval_at(term(h2, l as nat), env, s) == eval_at(term(h, l as nat), env, s));
                    assert(eval_at(term(h2, r as nat), env, s) == eval_at(term(h, r as nat), env, s));
                }
            },
            Op::Sub(l, r) => {
                lemma_replace_keeps_values(h, k, op, l as nat);
                lemma_replace_keeps_values(h, k, op, r as nat);
                assert(term(h2, j) == Term::Sub(Box::new(term(h2, l as nat)), Box::new(term(h2, r as nat))));
                assert(term(h, j) == Term::Sub(Box::new(term(h, l as nat)), Box::new(term(h, r as nat))));
                assert forall|env: Env, s: int| #[trigger] eval_at(term(h2, j), env, s) == eval_at(term(h, j), env, s) by {
                    assert(eval_at(term(h2, l as nat), env, s) == eval_at(term(h, l as nat), env, s));
                    assert(eval_at(term(h2, r as nat), env, s) == eval_at(term(h, r as nat), env, s));
                }
            },
            Op::Mul(l, r) => {
                lemma_replace_keeps_values(h, k, op, l as nat);
                lemma_replace_keeps_values(h, k, op, r as nat);
                assert(term(h2, j) == Term::Mul(Box::new(term(h2, l as nat)), Box::new(term(h2, r as nat))));
                assert(term(h, j) == Term::Mul(Box::new(term(h, l as nat)), Box::new(term(h, r as nat))));
                assert forall|env: Env, s: int| #[trigger] eval_at(term(h2, j), env, s) == eval_at(term(h, j), env, s) by {
                    assert(eval_at(term(h2, l as nat), env, s) == eval_at(term(h, l as nat), env, s));
                    assert(eval_at(term(h2, r as nat), env, s) == eval_at(term(h, r as nat), env, s));
                }
            },
            Op::Exp(l, r) => {
                lemma_replace_keeps_values(h, k, op, l as nat);
                lemma_replace_keeps_values(h, k, op, r as nat);
                assert(term(h2, j) == Term::Exp(Box::new(term(h2, l as nat)), Box::new(term(h2, r as nat))));
                assert(term(h, j) == Term::Exp(Box::new(term(h, l as nat)), Box::new(term(h, r as nat))));
                assert forall|env: Env, s: int| #[trigger] eval_at(term(h2, j), env, s) == eval_at(term(h, j), env, s) by {
                    assert(eval_at(term(h2, l as nat), env, s) == eval_at(term(h, l as nat), env, s));
                    assert(eval_at(term(h2, r as nat), env, s) == eval_at(term(h, r as nat), env, s));
                }
            },
            Op::Enf(e) => {
                lemma_replace_keeps_values(h, k, op, e as nat);
                assert(term(h2, j) == Term::Enf(Box::new(term(h2, e as nat))));
                assert(term(h, j) == Term::Enf(Box::new(term(h, e as nat))));
                assert forall|env: Env, s: int| #[trigger] eval_at(term(h2, j), env, s) == eval_at(term(h, j), env, s) by {
                    assert(eval_at(term(h2, e as nat), env, s) == eval_at(term(h, e as nat), env, s));
                }
            },
            Op::Accessor(..) => {
                lemma_access_keeps_values(h, k, op, j);
            },
            _ => {
                assert(same_values(h, h2, j));
            },
        }
    } else {
        assert(same_values(h, h2, j));
    }
    assert(same_values(h, h2, j));
}

/// An access after the replaced node keeps its value: what it accesses keeps its value, and a
/// vector or a matrix keeps its shape.
proof fn lemma_access_keeps_values(h: Seq<Op>, k: nat, op: Op, j: nat)
    requires
        crate::mir::graph::nodes_wf(h),
        k < j < h.len(),
        h[j as int] is Accessor,
        operands_below(op, k),
        !(h[k as int] is Vector),
        !(h[k as int] is Matrix),
        !(op is Vector),
        !(op is Matrix),
        same_values(h, h.update(k as int, op), k),
    ensures
        same_values(h, h.update(k as int, op), j),
    decreases j, 0nat,
{
    let h2 = h.update(k as int, op);
    assert(h2[j as int] == h[j as int]);
    assert(operands_below(h[j as int], j));
    let (i, a, o) = match h[j as int] {
        Op::Accessor(i, a, o) => (i, a, o),
        _ => arbitrary(),
    };
    assert(i < j);
    lemma_replace_keeps_values(h, k, op, i as nat);
    assert(term(h2, j) == Term::Accessor(Box::new(term(h2, i as nat)), a, o));
    assert(term(h, j) == Term::Accessor(Box::new(term(h, i as nat)), a, o));
    match a {
        AccessType::Index(m) => {
            match h[i as int] {
                Op::Vector(es) => {
                    assert(h2[i as int] == h[i as int]);
                    assert(operands_below(h[i as int], i as nat));
                    lemma_terms_index(h, es@, i as nat);
                    lemma_terms_index(h2, es@, i as nat);
                    if m < es@.len() {
                        let e = es@[m as int] as nat;
                        lemma_replace_keeps_values(h, k, op, e);
                        assert forall|env: Env, s: int| #[trigger] eval_at(term(h2, j), env, s)
                            == eval_at(term(h, j), env, s) by {
                            assert(eval_at(term(h2, e), env, s + o) == eval_at(term(h, e), env, s + o));
                        }
                    }
                },
                _ => {
                    assert(!(h2[i as int] is Vector));
                    assert(!(term(h2, i as nat) is Vector));
                    assert(!(term(h, i as nat) is Vector));
                },
            }
        },
        AccessType::Matrix(r, c) => {
            match h[i as int] {
                Op::Matrix(rows) => {
                    assert(h2[i as int] == h[i as int]);
                    assert(operands_below(h[i as int], i as nat));
                    lemma_terms_index(h, rows@, i as nat);
                    lemma_terms_index(h2, rows@, i as nat);
                    if r < rows@.len() {
                        let ri = rows@[r as int];
                        assert(ri < i);
                        match h[ri as int] {
                            Op::Vector(es) => {
                                assert(h2[ri as int] == h[ri as int]);
                                assert(operands_below(h[ri as int], ri as nat));
                                lemma_terms_index(h, es@, ri as nat);
                                lemma_terms_index(h2, es@, ri as nat);
                                if c < es@.len() {
                                    let e = es@[c as int] as nat;
                                    lemma_replace_keeps_values(h, k, op, e);
                                    assert forall|env: Env, s: int| #[trigger] eval_at(term(h2, j), env, s)
                                        == eval_at(term(h, j), env, s) by {
                                        assert(eval_at(term(h2, e), env, s + o) == eval_at(term(h, e), env, s + o));
                                    }
                                }
                            },
                            _ => {
                                assert(!(h2[ri as int] is Vector));
                                assert(!(term(h2, ri as nat) is Vector));
                                assert(!(term(h, ri as nat) is Vector));
                            },
                        }
                    }
                },
                _ => {
                    assert(!(h2[i as int] is Matrix));
                    assert(!(term(h2, i as nat) is Matrix));
                    assert(!(term(h, i as nat) is Matrix));
                },
            }
        },
        AccessType::Default => {
            assert forall|env: Env, s: int| #[trigger] eval_at(term(h2, j), env, s) == eval_at(
                term(h, j),
                env,
                s,
            ) by {
                assert(eval_at(term(h2, i as nat), env, s + o) == eval_at(term(h, i as nat), env, s + o));
            }
        },
        _ => {},
    }
}

/// Folding node `k` keeps the graph well formed, its matrices made of vectors, and the value
/// of every node.
proof fn lemma_fold_at_keeps_values(h: Seq<Op>, k: nat)
    requires
        crate::mir::graph::nodes_wf(h),
        matrices_wf(h),
        k < h.len(),
        safe_at(h, k),
    ensures
        fold_at(h, k).len() == h.len(),
        crate::mir::graph::nodes_wf(fold_at(h, k)),
        matrices_wf(fold_at(h, k)),
        forall|j: nat| j < h.len() ==> same_values(h, fold_at(h, k), j),
{
    if let Some(op) = fold_op(h, k) {
        let h2 = h.update(k as int, op);
        assert(operands_below(h[k as int], k));
        assert(operands_below(op, k)) by {
            if let Op::Accessor(i, AccessType::Index(m), _) = h[k as int] {
                if let Op::Matrix(rows) = h[i as int] {
                    assert(operands_below(h[i as int], i as nat));
                    assert(all_below(rows@, i as nat));
                }
            }
        }
        assert forall|env: Env, s: int| #[trigger] eval_at(term(h2, k), env, s) == eval_at(
            term(h, k),
            env,
            s,
        ) by {
            lemma_fold_value(h, k, env, s);
        }
        assert(crate::mir::graph::nodes_wf(h2)) by {
            assert forall|i: int| 0 <= i < h2.len() implies operands_below(#[trigger] h2[i], i as nat) by {
                if i != k {
                    assert(h2[i] == h[i]);
                }
            }
        }
        assert(matrices_wf(h2)) by {
            assert forall|i: int| 0 <= i < h2.len() implies (#[trigger] h2[i] matches Op::Matrix(
                rows,
            ) ==> forall|m: int|
                0 <= m < rows@.len() ==> rows@[m] < h2.len() && h2[rows@[m] as int] is Vector) by {
                if i != k {
                    assert(h2[i] == h[i]);
                    if let Op::Matrix(rows) = h[i] {
                        assert forall|m: int| 0 <= m < rows@.len() implies rows@[m] < h2.len()
                            && h2[rows@[m] as int] is Vector by {
                            assert(h[rows@[m] as int] is Vector);
                        }
                    }
                }
            }
        }
        assert forall|j: nat| j < h.len() implies same_values(h, fold_at(h, k), j) by {
            lemma_replace_keeps_values(h, k, op, j);
        }
    }
}

/// The value of node `k` once folded is its value before.
proof fn lemma_fold_value(h: Seq<Op>, k: nat, env: Env, s: int)
    requires
        crate::mir::graph::nodes_wf(h),
        matrices_wf(h),
        k < h.len(),
        safe_at(h, k),
        fold_op(h, k) is Some,
    ensures
        eval_at(term(h.update(k as int, fold_op(h, k).unwrap()), k), env, s) == eval_at(
            term(h, k),
            env,
            s,
        ),
{
    let op = fold_op(h, k).unwrap();
    let h2 = h.update(k as int, op);
    assert(operands_below(h[k as int], k));
    let p = h.subrange(0, k as int);
    assert(h2.subrange(0, k as int) =~= p);
    assert(h.subrange(0, k as int) =~= p);
    match h[k as int] {
        Op::Add(l, r) => {
            let a = lit(h, l as int).unwrap();
            let b = lit(h, r as int).unwrap();
            assert(term(h, l as nat) == Term::Value(MirValue::Constant(a)));
            assert(term(h, r as nat) == Term::Value(MirValue::Constant(b)));
            assert(op == constant_op((a + b) as u64));
            assert(term(h2, k) == Term::Value(MirValue::Constant((a + b) as u64)));
            assert(term(h, k) == Term::Add(Box::new(term(h, l as nat)), Box::new(term(h, r as nat))));
            assert(eval_at(term(h, l as nat), env, s) == a);
            assert(eval_at(term(h, r as nat), env, s) == b);
            assert(eval_at(term(h, k), env, s) == a + b);
        },
        Op::Sub(l, r) => {
            let a = lit(h, l as int).unwrap();
            let b = lit(h, r as int).unwrap();
            assert(term(h, l as nat) == Term::Value(MirValue::Constant(a)));
            assert(term(h, r as nat) == Term::Value(MirValue::Constant(b)));
            assert(op == constant_op((a - b) as u64));
            assert(term(h2, k) == Term::Value(MirValue::Constant((a - b) as u64)));
            assert(term(h, k) == Term::Sub(Box::new(term(h, l as nat)), Box::new(term(h, r as nat))));
            assert(eval_at(term(h, l as nat), env, s) == a);
            assert(eval_at(term(h, r as nat), env, s) == b);
            assert(eval_at(term(h, k), env, s) == a - b);
        },
        Op::Mul(l, r) => {
            let a = lit(h, l as int).unwrap();
            let b = lit(h, r as int).unwrap();
            assert(term(h, l as nat) == Term::Value(MirValue::Constant(a)));
            assert(term(h, r as nat) == Term::Value(MirValue::Constant(b)));
            assert(op == constant_op((a * b) as u64));
            assert(term(h2, k) == Term::Value(MirValue::Constant((a * b) as u64)));
            assert(term(h, k) == Term::Mul(Box::new(term(h, l as nat)), Box::new(term(h, r as nat))));
            assert(eval_at(term(h, l as nat), env, s) == a);
            assert(eval_at(term(h, r as nat), env, s) == b);
            assert(eval_at(term(h, k), env, s) == a * b);
        },
        Op::Exp(l, r) => {
            let a = lit(h, l as int).unwrap();
            let b = lit(h, r as int).unwrap();
            assert(term(h, l as nat) == Term::Value(MirValue::Constant(a)));
            assert(term(h, r as nat) == Term::Value(MirValue::Constant(b)));
            lemma_pow_nonneg(a as int, b as nat);
            assert(op == constant_op(pow(a as int, b as nat) as u64));
            assert(term(h2, k) == Term::Value(MirValue::Constant(pow(a as int, b as nat) as u64)));
            assert(term(h, k) == Term::Exp(Box::new(term(h, l as nat)), Box::new(term(h, r as nat))));
            assert(eval_at(term(h, l as nat), env, s) == a);
            assert(eval_at(term(h, r as nat), env, s) == b);
            assert(eval_at(term(h, k), env, s) == pow(a as int, b as nat));
        },
        Op::Accessor(i, access, o) => {
            match access {
                AccessType::Default => {
                    let a = lit(h, i as int).unwrap();
                    assert(term(h, i as nat) == Term::Value(MirValue::Constant(a)));
                    assert(term(h, k) == Term::Accessor(Box::new(term(h, i as nat)), access, o));
                    assert(eval_at(term(h, i as nat), env, s + o) == a);
                    assert(term(h2, k) == Term::Value(MirValue::Constant(a)));
                    assert(eval_at(term(h2, k), env, s) == eval_at(term(h, k), env, s));
                },
                AccessType::Index(m) => {
                    match h[i as int] {
                        Op::Vector(es) => {
                            assert(operands_below(h[i as int], i as nat));
                            lemma_terms_index(h, es@, i as nat);
                            let e = es@[m as int];
                            let a = lit(h, e as int).unwrap();
                            assert(term(h, e as nat) == Term::Value(MirValue::Constant(a)));
                            assert(term(h, k) == Term::Accessor(Box::new(term(h, i as nat)), access, o));
                            assert(term(h, i as nat) == Term::Vector(terms(h, es@, i as nat)));
                            assert(eval_at(term(h, e as nat), env, s + o) == a);
                            assert(term(h2, k) == Term::Value(MirValue::Constant(a)));
                            assert(eval_at(term(h2, k), env, s) == eval_at(term(h, k), env, s));
                        },
                        Op::Matrix(rows) => {
                            let row = rows@[m as int];
                            assert(operands_below(h[i as int], i as nat));
                            assert(row < i);
                            assert(h[row as int] is Vector);
                            lemma_term_extend(p, h, row as nat);
                            lemma_term_extend(p, h2, row as nat);
                            assert(term(h2, row as nat) is Vector);
                            assert(!(term(h, i as nat) is Vector));
                            assert(term(h, k) == Term::Accessor(Box::new(term(h, i as nat)), access, o));
                            assert(eval_at(term(h, k), env, s) == 0);
                            assert(term(h2, k) == Term::Accessor(Box::new(term(h2, row as nat)), AccessType::Default, 0));
                            assert(eval_at(term(h2, row as nat), env, s) == 0);
                            assert(eval_at(term(h2, k), env, s) == eval_at(term(h, k), env, s));
                        },
                        _ => {},
                    }
                },
                AccessType::Matrix(r, c) => {
                    if let Op::Matrix(rows) = h[i as int] {
                        assert(operands_below(h[i as int], i as nat));
                        lemma_terms_index(h, rows@, i as nat);
                        let row = rows@[r as int];
                        if let Op::Vector(es) = h[row as int] {
                            assert(operands_below(h[row as int], row as nat));
                            lemma_terms_index(h, es@, row as nat);
                            let e = es@[c as int];
                            let a = lit(h, e as int).unwrap();
                            assert(term(h, e as nat) == Term::Value(MirValue::Constant(a)));
                            assert(term(h, k) == Term::Accessor(Box::new(term(h, i as nat)), access, o));
                            assert(term(h, i as nat) == Term::Matrix(terms(h, rows@, i as nat)));
                            assert(term(h, row as nat) == Term::Vector(terms(h, es@, row as nat)));
                            assert(eval_at(term(h, e as nat), env, s + o) == a);
                            assert(term(h2, k) == Term::Value(MirValue::Constant(a)));
                            assert(eval_at(term(h2, k), env, s) == eval_at(term(h, k), env, s));
                        }
                    }
                },
                _ => {},
            }
        },
        _ => {},
    }
}

/// Constant folding keeps the value of every node of the graph, at every row and whatever
/// the leaves stand for.
pub proof fn lemma_folding_keeps_values(g: Seq<Op>, n: nat)
    requires
        crate::mir::graph::nodes_wf(g),
        matrices_wf(g),
        n <= g.len(),
        fold_safe(g, n),
    ensures
        folded(g, n).len() == g.len(),
        crate::mir::graph::nodes_wf(folded(g, n)),
        matrices_wf(folded(g, n)),
        forall|j: nat, env: Env, s: int|
            j < g.len() ==> #[trigger] eval_at(term(folded(g, n), j), env, s) == eval_at(
                term(g, j),
                env,
                s,
            ),
    decreases n,
{
    if n > 0 {
        let m = (n - 1) as nat;
        lemma_folding_keeps_values(g, m);
        let h = folded(g, m);
        lemma_fold_at_keeps_values(h, m);
        assert forall|j: nat, env: Env, s: int| j < g.len() implies #[trigger] eval_at(
            term(folded(g, n), j),
            env,
            s,
        ) == eval_at(term(g, j), env, s) by {
            assert(same_values(h, fold_at(h, m), j));
            assert(eval_at(term(fold_at(h, m), j), env, s) == eval_at(term(h, j), env, s));
        }
    }
}

/// The constant propagation pass.
pub struct ConstantPropagation {}

impl ConstantPropagation {
    pub fn new() -> (r: ConstantPropagation) {
        ConstantPropagation {}
    }

    /// Folds every node of the constraint graph, operands before the operations that use them.
    pub fn run(&mut self, ir: Mir) -> (r: Result<Mir, CompileError>)
        requires
            ir.constraint_graph.wf(),
            fold_safe(ir.constraint_graph@, ir.constraint_graph@.len()),
        ensures
            r is Ok,
            r matches Ok(out) ==> {
                &&& out.name == ir.name
                &&& out.num_random_values == ir.num_random_values
                &&& out.constraint_graph.wf()
                &&& out.constraint_graph@ == folded(
                    ir.constraint_graph@,
                    ir.constraint_graph@.len(),
                )
                &&& out.constraint_graph.boundary_roots@ == ir.constraint_graph.boundary_roots@
                &&& out.constraint_graph.integrity_roots@ == ir.constraint_graph.integrity_roots@
                &&& out.constraint_graph.buses@ == ir.constraint_graph.buses@
            },
    {
        let ghost g0 = ir.constraint_graph;
        let Mir { name, constraint_graph, num_random_values } = ir;
        let mut g = constraint_graph;
        let n = g.nodes.len();
        let mut k: usize = 0;
        while k < n
            invariant
                g.wf(),
                k <= n,
                n == g0@.len(),
                g@ == folded(g0@, k as nat),
                fold_safe(g0@, n as nat),
                g.boundary_roots@ == g0.boundary_roots@,
                g.integrity_roots@ == g0.integrity_roots@,
                g.buses@ == g0.buses@,
            decreases n - k,
        {
            proof {
                lemma_fold_safe_prefix(g0@, n as nat, (k + 1) as nat);
                lemma_folded_len(g0@, k as nat);
            }
            fold_node(&mut g, k);
            k = k + 1;
        }
        Ok(Mir { name, constraint_graph: g, num_random_values })
    }
}


/// Folding a row access on a constant matrix keeps what it selects: the access becomes a
/// default access, at no row offset, to the row at the index, the tree of which is the
/// element of the matrix's tree at that index.
pub proof fn lemma_folded_row_access(
    g: Seq<Op>,
    k: nat,
    i: NodeId,
    m: usize,
    o: usize,
    rows: Vec<NodeId>,
)
    requires
        crate::mir::graph::nodes_wf(g),
        k < g.len(),
        g[k as int] == Op::Accessor(i, AccessType::Index(m), o),
        g[i as int] == Op::Matrix(rows),
    ensures
        fold_op(g, k) matches Some(op) ==> (op matches Op::Accessor(x, AccessType::Default, 0) && m
            < rows@.len() && (term(g, i as nat) matches Term::Matrix(ts) && term(g, x as nat)
            == ts[m as int])),
{
    assert(operands_below(g[k as int], k));
    assert(operands_below(g[i as int], i as nat));
    lemma_terms_index(g, rows@, i as nat);
}

} // verus!
