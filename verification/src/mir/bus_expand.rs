//! Expansion of buses into integrity constraints.
//!
//! A `Unit` bus is a multiset check: with `p` the bus column and `p'` its next row,
//! `p.add(a, b) when s` and `p.rem(c, d) when (1 - s)` give
//! `p * ((α0 + α1·a + α2·b)·s + 1 - s) - p' * ((α0 + α1·c + α2·d)·(1 - s) + s) = 0`.
//!
//! A `Mult` bus is a LogUp bus: `q.add(a, b, c) for d` and `q.rem(e, f, g) when s` give
//! `q' + s / (α0 + α1·e + α2·f + α3·g) = q + d / (α0 + α1·a + α2·b + α3·c)`, multiplied out
//! by the product of all the denominators.
use vstd::prelude::*;
use crate::ast::AccessType;
use crate::mir::graph::{
    all_below, copy_ids, operands_below, BusOpKind, BusType, Graph, MirValue, NodeId, Op,
};
use crate::mir::term::{term, Term};
use crate::mir::eval::{eval, eval_at, Env};
use crate::mir::duplicate::{duplicate_node, lemma_extends_refl, lemma_extends_trans, lemma_term_kept};

verus! {

/// The value of node `id` at the current row.
pub open spec fn node_val(g: Seq<Op>, id: NodeId, env: Env) -> int {
    eval(term(g, id as nat), env)
}

/// The values of the nodes `ids`.
pub open spec fn vals_of(g: Seq<Op>, ids: Seq<NodeId>, env: Env) -> Seq<int> {
    Seq::new(ids.len(), |k: int| node_val(g, ids[k], env))
}

/// `α0 + α1·v0 + α2·v1 + ...`, summed from the left.
pub open spec fn combine(vals: Seq<int>, env: Env) -> int
    decreases vals.len(),
{
    if vals.len() == 0 {
        (env.random)(0)
    } else {
        combine(vals.drop_last(), env) + vals.last() * (env.random)(vals.len() as usize)
    }
}

/// The kind of the bus operation at node `c`.
pub open spec fn col_kind(g: Seq<Op>, c: NodeId) -> BusOpKind {
    match g[c as int] {
        Op::BusOp(_, k, _, _) => k,
        _ => BusOpKind::Add,
    }
}

/// The arguments of the bus operation at node `c`.
pub open spec fn col_args(g: Seq<Op>, c: NodeId) -> Seq<NodeId> {
    match g[c as int] {
        Op::BusOp(_, _, args, _) => args@,
        _ => Seq::empty(),
    }
}

pub open spec fn kinds_of(g: Seq<Op>, cs: Seq<NodeId>) -> Seq<BusOpKind> {
    Seq::new(cs.len(), |i: int| col_kind(g, cs[i]))
}

/// The combined arguments of each column.
pub open spec fn combined_of(g: Seq<Op>, cs: Seq<NodeId>, env: Env) -> Seq<int> {
    Seq::new(cs.len(), |i: int| combine(vals_of(g, col_args(g, cs[i]), env), env))
}

/// A multiset factor: the combined arguments where the latch `s` is one, and one where it is
/// zero: `comb·s + (1 - s)`.
pub open spec fn unit_factor(comb: int, s: int) -> int {
    comb * s + (1 - s)
}

/// The product of the factors of the first `n` columns of kind `kind`.
pub open spec fn prod_of_kind(
    kinds: Seq<BusOpKind>,
    fs: Seq<int>,
    kind: BusOpKind,
    n: nat,
) -> int
    decreases n,
{
    if n == 0 {
        1
    } else {
        prod_of_kind(kinds, fs, kind, (n - 1) as nat) * if kinds[n - 1] == kind {
            fs[n - 1]
        } else {
            1
        }
    }
}

/// The multiset factor of each column.
pub open spec fn unit_factors(g: Seq<Op>, cs: Seq<NodeId>, ls: Seq<NodeId>, env: Env) -> Seq<int> {
    Seq::new(
        cs.len(),
        |i: int| unit_factor(combined_of(g, cs, env)[i], node_val(g, ls[i], env)),
    )
}

/// The multiset constraint of bus `b`: `Π(factors of insertions) · p - Π(factors of removals)
/// · p'`.
pub open spec fn unit_law(g: Seq<Op>, b: usize, cs: Seq<NodeId>, ls: Seq<NodeId>, env: Env) -> int {
    let fs = unit_factors(g, cs, ls, env);
    let ks = kinds_of(g, cs);
    prod_of_kind(ks, fs, BusOpKind::Add, cs.len()) * (env.bus)(b, 0) - prod_of_kind(
        ks,
        fs,
        BusOpKind::Rem,
        cs.len(),
    ) * (env.bus)(b, 1)
}

/// The multiset constraint given the values `p` and `p1` of the bus column at the current and
/// next rows.
pub open spec fn unit_law_with(g: Seq<Op>, cs: Seq<NodeId>, ls: Seq<NodeId>, p: int, p1: int, env: Env) -> int {
    let fs = unit_factors(g, cs, ls, env);
    let ks = kinds_of(g, cs);
    prod_of_kind(ks, fs, BusOpKind::Add, cs.len()) * p - prod_of_kind(ks, fs, BusOpKind::Rem, cs.len()) * p1
}

/// The product of the first `n` values, skipping position `skip`.
pub open spec fn prod_except(fs: Seq<int>, skip: int, n: nat) -> int
    decreases n,
{
    if n == 0 {
        1
    } else {
        prod_except(fs, skip, (n - 1) as nat) * if n - 1 != skip {
            fs[n - 1]
        } else {
            1
        }
    }
}

/// `Σ latch_i · Π_{j ≠ i} f_j` over the first `n` columns of kind `kind`.
pub open spec fn sum_of_kind(
    kinds: Seq<BusOpKind>,
    fs: Seq<int>,
    ss: Seq<int>,
    kind: BusOpKind,
    n: nat,
) -> int
    decreases n,
{
    if n == 0 {
        0
    } else {
        sum_of_kind(kinds, fs, ss, kind, (n - 1) as nat) + if kinds[n - 1] == kind {
            prod_except(fs, n - 1, fs.len()) * ss[n - 1]
        } else {
            0
        }
    }
}

/// The LogUp constraint of bus `b`, multiplied out by the product `P` of all the combined
/// arguments: `(P·q + Σ_insertions s_i·P/f_i) - (P·q' + Σ_removals s_i·P/f_i)`.
pub open spec fn mult_law(g: Seq<Op>, b: usize, cs: Seq<NodeId>, ls: Seq<NodeId>, env: Env) -> int {
    let fs = combined_of(g, cs, env);
    let ss = vals_of(g, ls, env);
    let ks = kinds_of(g, cs);
    let total = prod_except(fs, -1, cs.len());
    (total * (env.bus)(b, 0) + sum_of_kind(ks, fs, ss, BusOpKind::Add, cs.len())) - (total * (
    env.bus)(b, 1) + sum_of_kind(ks, fs, ss, BusOpKind::Rem, cs.len()))
}

/// The LogUp constraint given the values `q` and `q1` of the bus column at the current and
/// next rows.
pub open spec fn mult_law_with(g: Seq<Op>, cs: Seq<NodeId>, ls: Seq<NodeId>, q: int, q1: int, env: Env) -> int {
    let fs = combined_of(g, cs, env);
    let ss = vals_of(g, ls, env);
    let ks = kinds_of(g, cs);
    let total = prod_except(fs, -1, cs.len());
    (total * q + sum_of_kind(ks, fs, ss, BusOpKind::Add, cs.len())) - (total * q1 + sum_of_kind(
        ks,
        fs,
        ss,
        BusOpKind::Rem,
        cs.len(),
    ))
}

/// The constraint a bus is expanded into.
pub open spec fn bus_law(g: Seq<Op>, b: usize, t: BusType, cs: Seq<NodeId>, ls: Seq<NodeId>, env: Env) -> int {
    match t {
        BusType::Unit => unit_law(g, b, cs, ls, env),
        BusType::Mult => mult_law(g, b, cs, ls, env),
    }
}

/// Node `c` holds a bus operation.
pub open spec fn is_bus_op(g: Seq<Op>, c: NodeId) -> bool {
    c < g.len() && g[c as int] is BusOp
}

/// Values of stored nodes are the same in any extension of the graph.
pub proof fn lemma_val_kept(old: &Graph, new: &Graph, id: NodeId)
    requires
        new.extends(old),
        id < old@.len(),
    ensures
        forall|env: Env| #[trigger] node_val(new@, id, env) == node_val(old@, id, env),
{
    lemma_term_kept(old, new, id as nat);
}

/// An enforcement node has the value of its operand.
pub proof fn lemma_enf_val(g: &Graph, root: NodeId)
    requires
        g.wf(),
        root < g@.len(),
        g@[root as int] is Enf,
    ensures
        forall|env: Env| #[trigger] node_val(g@, root, env) == node_val(g@, g@[root as int]->Enf_0, env),
{
    assert(operands_below(g@[root as int], root as nat));
}

/// The values of stored nodes are the same in any extension of the graph.
pub proof fn lemma_vals_kept(old: &Graph, new: &Graph, ids: Seq<NodeId>)
    requires
        new.extends(old),
        all_below(ids, old@.len()),
    ensures
        forall|env: Env| #[trigger] vals_of(new@, ids, env) == vals_of(old@, ids, env),
{
    assert forall|env: Env| #[trigger] vals_of(new@, ids, env) == vals_of(old@, ids, env) by {
        assert forall|k: int| 0 <= k < ids.len() implies vals_of(new@, ids, env)[k] == vals_of(
            old@,
            ids,
            env,
        )[k] by {
            lemma_term_kept(old, new, ids[k] as nat);
        }
        assert(vals_of(new@, ids, env) =~= vals_of(old@, ids, env));
    }
}

/// The bus laws only depend on stored nodes, so they are the same in any extension.
pub proof fn lemma_bus_law_kept(
    old: &Graph,
    new: &Graph,
    b: usize,
    t: BusType,
    cs: Seq<NodeId>,
    ls: Seq<NodeId>,
)
    requires
        new.extends(old),
        old.wf(),
        cs.len() == ls.len(),
        all_below(ls, old@.len()),
        forall|i: int| 0 <= i < cs.len() ==> is_bus_op(old@, #[trigger] cs[i]),
    ensures
        forall|env: Env| #[trigger] bus_law(new@, b, t, cs, ls, env) == bus_law(old@, b, t, cs, ls, env),
{
    assert forall|i: int| 0 <= i < cs.len() implies new@[cs[i] as int] == old@[#[trigger] cs[i] as int] by {
        assert(new@.subrange(0, old@.len() as int)[cs[i] as int] == new@[cs[i] as int]);
    }
    assert(kinds_of(new@, cs) =~= kinds_of(old@, cs));
    assert forall|env: Env| #[trigger] bus_law(new@, b, t, cs, ls, env) == bus_law(old@, b, t, cs, ls, env) by {
        lemma_vals_kept(old, new, ls);
        assert forall|i: int| 0 <= i < cs.len() implies #[trigger] combined_of(new@, cs, env)[i]
            == combined_of(old@, cs, env)[i] by {
            let c = cs[i];
            assert(new@[c as int] == old@[c as int]);
            assert(is_bus_op(old@, c));
            let args = col_args(old@, c);
            assert(col_args(new@, c) == args);
            assert(all_below(args, old@.len())) by {
                assert(crate::mir::graph::operands_below(old@[c as int], c as nat));
            }
            lemma_vals_kept(old, new, args);
        }
        assert(combined_of(new@, cs, env) =~= combined_of(old@, cs, env));
        assert forall|i: int| 0 <= i < cs.len() implies node_val(new@, #[trigger] ls[i], env)
            == node_val(old@, ls[i], env) by {
            lemma_val_kept(old, new, ls[i]);
        }
        assert(unit_factors(new@, cs, ls, env) =~= unit_factors(old@, cs, ls, env));
    }
}

/// The larger of two numbers.
pub open spec fn max_of(a: nat, b: nat) -> nat {
    if a >= b {
        a
    } else {
        b
    }
}

/// The number of random values the expansion of the first `n` columns records as used:
/// at least one, and one per argument of the widest column.
pub open spec fn random_needed(g: Seq<Op>, cs: Seq<NodeId>, n: nat) -> nat
    decreases n,
{
    if n == 0 {
        0
    } else {
        max_of(random_needed(g, cs, (n - 1) as nat), max_of(1, col_args(g, cs[n - 1]).len()))
    }
}

/// Stores a leaf value.
pub(crate) fn mk_value(g: &mut Graph, v: MirValue) -> (r: NodeId)
    requires
        old(g).wf(),
    ensures
        final(g).wf(),
        final(g).extends(old(g)),
        r == old(g)@.len(),
        r < final(g)@.len(),
        final(g)@ == old(g)@.push(Op::Value(v)),
        forall|env: Env| #[trigger] node_val(final(g)@, r, env) == crate::mir::eval::eval_value(v, env, 0),
{
    g.insert(Op::Value(v))
}

/// Stores `a + b`.
fn mk_add(g: &mut Graph, a: NodeId, b: NodeId) -> (r: NodeId)
    requires
        old(g).wf(),
        a < old(g)@.len(),
        b < old(g)@.len(),
    ensures
        final(g).wf(),
        final(g).extends(old(g)),
        r == old(g)@.len(),
        r < final(g)@.len(),
        forall|env: Env| #[trigger] node_val(final(g)@, r, env) == node_val(old(g)@, a, env) + node_val(old(g)@, b, env),
{
    let ghost g0 = *g;
    let r = g.insert(Op::Add(a, b));
    proof {
        lemma_term_kept(&g0, g, a as nat);
        lemma_term_kept(&g0, g, b as nat);
    }
    r
}

/// Stores `a - b`.
fn mk_sub(g: &mut Graph, a: NodeId, b: NodeId) -> (r: NodeId)
    requires
        old(g).wf(),
        a < old(g)@.len(),
        b < old(g)@.len(),
    ensures
        final(g).wf(),
        final(g).extends(old(g)),
        r == old(g)@.len(),
        r < final(g)@.len(),
        forall|env: Env| #[trigger] node_val(final(g)@, r, env) == node_val(old(g)@, a, env) - node_val(old(g)@, b, env),
{
    let ghost g0 = *g;
    let r = g.insert(Op::Sub(a, b));
    proof {
        lemma_term_kept(&g0, g, a as nat);
        lemma_term_kept(&g0, g, b as nat);
    }
    r
}

/// Stores `a * b`.
fn mk_mul(g: &mut Graph, a: NodeId, b: NodeId) -> (r: NodeId)
    requires
        old(g).wf(),
        a < old(g)@.len(),
        b < old(g)@.len(),
    ensures
        final(g).wf(),
        final(g).extends(old(g)),
        r == old(g)@.len(),
        r < final(g)@.len(),
        forall|env: Env| #[trigger] node_val(final(g)@, r, env) == node_val(old(g)@, a, env) * node_val(old(g)@, b, env),
{
    let ghost g0 = *g;
    let r = g.insert(Op::Mul(a, b));
    proof {
        lemma_term_kept(&g0, g, a as nat);
        lemma_term_kept(&g0, g, b as nat);
    }
    r
}

/// Stores `α0 + α1·args[0] + α2·args[1] + ...`, and raises `max_random` to the number of
/// random values used (at least one; one more per argument, the first not counted).
fn combine_args(g: &mut Graph, args: &Vec<NodeId>, max_random: &mut usize) -> (r: NodeId)
    requires
        old(g).wf(),
        all_below(args@, old(g)@.len()),
        args@.len() < usize::MAX,
    ensures
        final(g).wf(),
        final(g).extends(old(g)),
        r < final(g)@.len(),
        forall|env: Env| #[trigger] node_val(final(g)@, r, env) == combine(vals_of(old(g)@, args@, env), env),
        *final(max_random) as nat == max_of(*old(max_random) as nat, max_of(1, args@.len())),
{
    let ghost g0 = *g;
    proof {
        lemma_extends_refl(g);
    }
    let mut acc = mk_value(g, MirValue::RandomValue(0));
    if *max_random < 1 {
        *max_random = 1;
    }
    let mut k: usize = 0;
    while k < args.len()
        invariant
            g.wf(),
            g.extends(&g0),
            g0.wf(),
            all_below(args@, g0@.len()),
            args@.len() < usize::MAX,
            k <= args@.len(),
            acc < g@.len(),
            forall|env: Env| #[trigger] node_val(g@, acc, env) == combine(vals_of(g0@, args@.subrange(0, k as int), env), env),
            *max_random as nat == max_of(max_of(*old(max_random) as nat, 1), k as nat),
        decreases args@.len() - k,
    {
        let ghost g1 = *g;
        let alpha = mk_value(g, MirValue::RandomValue(k + 1));
        let ghost g2 = *g;
        let a = args[k];
        proof {
            lemma_term_kept(&g0, &g1, a as nat);
            lemma_extends_trans(&g0, &g1, &g2);
        }
        let t = mk_mul(g, a, alpha);
        let ghost g3 = *g;
        proof {
            lemma_extends_trans(&g1, &g2, &g3);
            lemma_val_kept(&g1, &g3, acc);
            lemma_val_kept(&g0, &g2, a);
        }
        acc = mk_add(g, acc, t);
        proof {
            lemma_extends_trans(&g1, &g3, g);
            lemma_extends_trans(&g0, &g1, g);
            assert forall|env: Env| #[trigger] node_val(g@, acc, env) == combine(
                vals_of(g0@, args@.subrange(0, k + 1), env),
                env,
            ) by {
                let vs = vals_of(g0@, args@.subrange(0, k + 1), env);
                assert(vs.drop_last() =~= vals_of(g0@, args@.subrange(0, k as int), env));
                assert(vs.last() == node_val(g0@, a, env));
            }
        }
        if *max_random < k + 1 {
            *max_random = k + 1;
        }
        k = k + 1;
    }
    proof {
        assert(args@.subrange(0, k as int) =~= args@);
    }
    acc
}

/// The arguments of the bus operation at node `c`.
fn bus_op_args(g: &Graph, c: NodeId) -> (r: Vec<NodeId>)
    requires
        g.wf(),
        is_bus_op(g@, c),
    ensures
        r@ == col_args(g@, c),
        all_below(r@, g@.len()),
{
    proof {
        assert(crate::mir::graph::operands_below(g@[c as int], c as nat));
    }
    match &g.nodes[c] {
        Op::BusOp(_, _, args, _) => copy_ids(args),
        _ => Vec::new(),
    }
}

/// The kind of the bus operation at node `c`.
fn bus_op_kind(g: &Graph, c: NodeId) -> (r: BusOpKind)
    requires
        is_bus_op(g@, c),
    ensures
        r == col_kind(g@, c),
{
    match &g.nodes[c] {
        Op::BusOp(_, k, _, _) => *k,
        _ => BusOpKind::Add,
    }
}

/// A bus operation and its arguments are the same in any extension of the graph.
proof fn lemma_column_kept(g0: &Graph, g: &Graph, c: NodeId)
    requires
        g.extends(g0),
        g0.wf(),
        is_bus_op(g0@, c),
    ensures
        g@[c as int] == g0@[c as int],
        is_bus_op(g@, c),
        col_args(g@, c) == col_args(g0@, c),
        col_kind(g@, c) == col_kind(g0@, c),
        all_below(col_args(g0@, c), g0@.len()),
        forall|env: Env| #[trigger] vals_of(g@, col_args(g0@, c), env) == vals_of(g0@, col_args(g0@, c), env),
{
    assert(g@.subrange(0, g0@.len() as int)[c as int] == g@[c as int]);
    assert(crate::mir::graph::operands_below(g0@[c as int], c as nat));
    lemma_vals_kept(g0, g, col_args(g0@, c));
}

/// Stores the multiset factor of one column: `(α0 + α1·a0 + ...)·s + (1 - s)`, with the
/// latch `s` copied for the second use.
fn unit_column_factor(g: &mut Graph, c: NodeId, l: NodeId, max_random: &mut usize) -> (r: NodeId)
    requires
        old(g).wf(),
        is_bus_op(old(g)@, c),
        l < old(g)@.len(),
        col_args(old(g)@, c).len() < usize::MAX,
    ensures
        final(g).wf(),
        final(g).extends(old(g)),
        r < final(g)@.len(),
        forall|env: Env| #[trigger] node_val(final(g)@, r, env) == unit_factor(
            combine(vals_of(old(g)@, col_args(old(g)@, c), env), env),
            node_val(old(g)@, l, env),
        ),
        *final(max_random) as nat == max_of(*old(max_random) as nat, max_of(1, col_args(old(g)@, c).len())),
{
    let ghost g0 = *g;
    let args = bus_op_args(g, c);
    let comb = combine_args(g, &args, max_random);
    let ghost g1 = *g;
    proof {
        lemma_val_kept(&g0, &g1, l);
    }
    let with_latch = mk_mul(g, comb, l);
    let ghost g2 = *g;
    let one = mk_value(g, MirValue::Constant(1));
    let ghost g3 = *g;
    proof {
        lemma_extends_trans(&g0, &g1, &g2);
        lemma_extends_trans(&g0, &g2, &g3);
        lemma_val_kept(&g0, &g3, l);
    }
    let lc = duplicate_node(g, l);
    let ghost g4 = *g;
    proof {
        lemma_extends_trans(&g2, &g3, &g4);
        lemma_val_kept(&g3, &g4, one);
        lemma_val_kept(&g2, &g4, with_latch);
    }
    let inv = mk_sub(g, one, lc);
    let ghost g5 = *g;
    proof {
        lemma_val_kept(&g4, &g5, with_latch);
    }
    let f = mk_add(g, with_latch, inv);
    proof {
        lemma_extends_trans(&g4, &g5, g);
        lemma_extends_trans(&g0, &g3, &g4);
        lemma_extends_trans(&g0, &g4, g);
        assert forall|env: Env| #[trigger] node_val(g@, f, env) == unit_factor(
            combine(vals_of(g0@, col_args(g0@, c), env), env),
            node_val(g0@, l, env),
        ) by {
            assert(node_val(g4@, lc, env) == node_val(g3@, l, env));
        }
    }
    f
}

/// Expands a multiset bus with columns `cs` and latches `ls` into one constraint, given nodes
/// for the bus column at the current row (`p`) and at the next row (`p1`).
pub(crate) fn expand_unit(
    g: &mut Graph,
    b: usize,
    cs: &Vec<NodeId>,
    ls: &Vec<NodeId>,
    p: NodeId,
    p1: NodeId,
    max_random: &mut usize,
) -> (root: NodeId)
    requires
        old(g).wf(),
        cs@.len() == ls@.len(),
        all_below(ls@, old(g)@.len()),
        forall|i: int| 0 <= i < cs@.len() ==> is_bus_op(old(g)@, #[trigger] cs@[i]),
        forall|i: int| 0 <= i < cs@.len() ==> col_args(old(g)@, #[trigger] cs@[i]).len() < usize::MAX,
        p < old(g)@.len(),
        p1 < old(g)@.len(),
    ensures
        final(g).wf(),
        final(g).extends(old(g)),
        root < final(g)@.len(),
        final(g)@[root as int] is Enf,
        forall|env: Env| #[trigger] node_val(final(g)@, root, env) == unit_law_with(
            old(g)@,
            cs@,
            ls@,
            node_val(old(g)@, p, env),
            node_val(old(g)@, p1, env),
            env,
        ),
        *final(max_random) as nat == max_of(*old(max_random) as nat, random_needed(old(g)@, cs@, cs@.len())),
{
    let ghost g0 = *g;
    proof {
        lemma_extends_refl(g);
    }
    let mut pf: Option<NodeId> = None;
    let mut ppf: Option<NodeId> = None;
    let mut i: usize = 0;
    while i < cs.len()
        invariant
            g.wf(),
            g.extends(&g0),
            g0.wf(),
            cs@.len() == ls@.len(),
            all_below(ls@, g0@.len()),
            forall|j: int| 0 <= j < cs@.len() ==> is_bus_op(g0@, #[trigger] cs@[j]),
            forall|j: int| 0 <= j < cs@.len() ==> col_args(g0@, #[trigger] cs@[j]).len() < usize::MAX,
            i <= cs@.len(),
            pf matches Some(x) ==> x < g@.len() && forall|env: Env| #[trigger] node_val(g@, x, env) == prod_of_kind(
                kinds_of(g0@, cs@),
                unit_factors(g0@, cs@, ls@, env),
                BusOpKind::Add,
                i as nat,
            ),
            pf is None ==> forall|env: Env| #[trigger] prod_of_kind(
                kinds_of(g0@, cs@),
                unit_factors(g0@, cs@, ls@, env),
                BusOpKind::Add,
                i as nat,
            ) == 1,
            ppf matches Some(x) ==> x < g@.len() && forall|env: Env| #[trigger] node_val(g@, x, env) == prod_of_kind(
                kinds_of(g0@, cs@),
                unit_factors(g0@, cs@, ls@, env),
                BusOpKind::Rem,
                i as nat,
            ),
            ppf is None ==> forall|env: Env| #[trigger] prod_of_kind(
                kinds_of(g0@, cs@),
                unit_factors(g0@, cs@, ls@, env),
                BusOpKind::Rem,
                i as nat,
            ) == 1,
            *max_random as nat == max_of(*old(max_random) as nat, random_needed(g0@, cs@, i as nat)),
        decreases cs@.len() - i,
    {
        let ghost g1 = *g;
        let c = cs[i];
        let l = ls[i];
        proof {
            assert(is_bus_op(g0@, c));
            lemma_column_kept(&g0, &g1, c);
            lemma_val_kept(&g0, &g1, l);
        }
        let kind = bus_op_kind(g, c);
        let f = unit_column_factor(g, c, l, max_random);
        let ghost g2 = *g;
        proof {
            lemma_extends_trans(&g0, &g1, &g2);
            assert forall|env: Env| #[trigger] node_val(g2@, f, env) == unit_factors(g0@, cs@, ls@, env)[i as int] by {
                assert(combined_of(g0@, cs@, env)[i as int] == combine(vals_of(g0@, col_args(g0@, c), env), env));
            }
            if let Some(x) = pf {
                lemma_val_kept(&g1, &g2, x);
            }
            if let Some(x) = ppf {
                lemma_val_kept(&g1, &g2, x);
            }
        }
        let ghost ks = kinds_of(g0@, cs@);
        proof {
            assert(ks[i as int] == kind);
        }
        match kind {
            BusOpKind::Add => {
                let nf = match pf {
                    Some(x) => mk_mul(g, x, f),
                    None => f,
                };
                proof {
                    lemma_extends_refl(g);
                    assert(g.extends(&g2));
                    if let Some(x) = ppf {
                        lemma_val_kept(&g2, g, x);
                    }
                    lemma_val_kept(&g2, g, f);
                    assert forall|env: Env| #[trigger] node_val(g@, nf, env) == prod_of_kind(
                        ks,
                        unit_factors(g0@, cs@, ls@, env),
                        BusOpKind::Add,
                        (i + 1) as nat,
                    ) by {
                        let fs = unit_factors(g0@, cs@, ls@, env);
                        assert(prod_of_kind(ks, fs, BusOpKind::Add, (i + 1) as nat) == prod_of_kind(ks, fs, BusOpKind::Add, i as nat) * fs[i as int]);
                    }
                    assert forall|env: Env| #[trigger] prod_of_kind(
                        ks,
                        unit_factors(g0@, cs@, ls@, env),
                        BusOpKind::Rem,
                        (i + 1) as nat,
                    ) == prod_of_kind(ks, unit_factors(g0@, cs@, ls@, env), BusOpKind::Rem, i as nat) by {}
                }
                pf = Some(nf);
            },
            BusOpKind::Rem => {
                let nf = match ppf {
                    Some(x) => mk_mul(g, x, f),
                    None => f,
                };
                proof {
                    lemma_extends_refl(g);
                    assert(g.extends(&g2));
                    if let Some(x) = pf {
                        lemma_val_kept(&g2, g, x);
                    }
                    lemma_val_kept(&g2, g, f);
                    assert forall|env: Env| #[trigger] node_val(g@, nf, env) == prod_of_kind(
                        ks,
                        unit_factors(g0@, cs@, ls@, env),
                        BusOpKind::Rem,
                        (i + 1) as nat,
                    ) by {
                        let fs = unit_factors(g0@, cs@, ls@, env);
                        assert(prod_of_kind(ks, fs, BusOpKind::Rem, (i + 1) as nat) == prod_of_kind(ks, fs, BusOpKind::Rem, i as nat) * fs[i as int]);
                    }
                    assert forall|env: Env| #[trigger] prod_of_kind(
                        ks,
                        unit_factors(g0@, cs@, ls@, env),
                        BusOpKind::Add,
                        (i + 1) as nat,
                    ) == prod_of_kind(ks, unit_factors(g0@, cs@, ls@, env), BusOpKind::Add, i as nat) by {}
                }
                ppf = Some(nf);
            },
        }
        proof {
            lemma_extends_trans(&g0, &g2, g);
            assert(random_needed(g0@, cs@, (i + 1) as nat) == max_of(random_needed(g0@, cs@, i as nat), max_of(1, col_args(g0@, c).len())));
        }
        i = i + 1;
    }
    let ghost g1 = *g;
    proof {
        lemma_val_kept(&g0, &g1, p);
        lemma_val_kept(&g0, &g1, p1);
    }
    let p_prod = match pf {
        Some(x) => mk_mul(g, x, p),
        None => p,
    };
    let ghost g2 = *g;
    proof {
        lemma_extends_refl(g);
        assert(g.extends(&g1));
        lemma_val_kept(&g1, &g2, p1);
        assert forall|env: Env| #[trigger] node_val(g2@, p_prod, env) == prod_of_kind(
            kinds_of(g0@, cs@),
            unit_factors(g0@, cs@, ls@, env),
            BusOpKind::Add,
            cs@.len(),
        ) * node_val(g0@, p, env) by {}
        if let Some(x) = ppf {
            lemma_val_kept(&g1, &g2, x);
        }
    }
    let p_prime_prod = match ppf {
        Some(x) => mk_mul(g, x, p1),
        None => p1,
    };
    let ghost g3 = *g;
    proof {
        lemma_extends_refl(g);
        assert(g.extends(&g2));
        lemma_extends_trans(&g1, &g2, &g3);
        lemma_val_kept(&g2, &g3, p_prod);
        assert forall|env: Env| #[trigger] node_val(g3@, p_prime_prod, env) == prod_of_kind(
            kinds_of(g0@, cs@),
            unit_factors(g0@, cs@, ls@, env),
            BusOpKind::Rem,
            cs@.len(),
        ) * node_val(g0@, p1, env) by {}
    }
    let diff = mk_sub(g, p_prod, p_prime_prod);
    let ghost g4 = *g;
    let root = g.insert(Op::Enf(diff));
    proof {
        lemma_term_kept(&g4, g, diff as nat);
        lemma_extends_trans(&g3, &g4, g);
        lemma_extends_trans(&g1, &g3, g);
        lemma_extends_trans(&g0, &g1, g);
        assert forall|env: Env| #[trigger] node_val(g@, root, env) == unit_law_with(
            g0@,
            cs@,
            ls@,
            node_val(g0@, p, env),
            node_val(g0@, p1, env),
            env,
        ) by {
            assert(node_val(g@, root, env) == node_val(g4@, diff, env));
        }
    }
    root
}

/// Stores the combined arguments of each column, in order.
fn combine_columns(g: &mut Graph, cs: &Vec<NodeId>, max_random: &mut usize) -> (r: Vec<NodeId>)
    requires
        old(g).wf(),
        forall|i: int| 0 <= i < cs@.len() ==> is_bus_op(old(g)@, #[trigger] cs@[i]),
        forall|i: int| 0 <= i < cs@.len() ==> col_args(old(g)@, #[trigger] cs@[i]).len() < usize::MAX,
    ensures
        final(g).wf(),
        final(g).extends(old(g)),
        r@.len() == cs@.len(),
        all_below(r@, final(g)@.len()),
        forall|env: Env| #[trigger] vals_of(final(g)@, r@, env) == combined_of(old(g)@, cs@, env),
        *final(max_random) as nat == max_of(*old(max_random) as nat, random_needed(old(g)@, cs@, cs@.len())),
{
    let ghost g0 = *g;
    proof {
        lemma_extends_refl(g);
    }
    let mut r: Vec<NodeId> = Vec::new();
    let mut i: usize = 0;
    while i < cs.len()
        invariant
            g.wf(),
            g.extends(&g0),
            g0.wf(),
            forall|j: int| 0 <= j < cs@.len() ==> is_bus_op(g0@, #[trigger] cs@[j]),
            forall|j: int| 0 <= j < cs@.len() ==> col_args(g0@, #[trigger] cs@[j]).len() < usize::MAX,
            i <= cs@.len(),
            r@.len() == i,
            all_below(r@, g@.len()),
            forall|env: Env| #[trigger] vals_of(g@, r@, env) == combined_of(g0@, cs@, env).subrange(0, i as int),
            *max_random as nat == max_of(*old(max_random) as nat, random_needed(g0@, cs@, i as nat)),
        decreases cs@.len() - i,
    {
        let ghost g1 = *g;
        let c = cs[i];
        proof {
            assert(is_bus_op(g0@, c));
            lemma_column_kept(&g0, &g1, c);
        }
        let args = bus_op_args(g, c);
        let f = combine_args(g, &args, max_random);
        proof {
            lemma_extends_trans(&g0, &g1, g);
            lemma_vals_kept(&g1, g, r@);
            assert forall|env: Env| #[trigger] vals_of(g@, r@.push(f), env) == combined_of(g0@, cs@, env).subrange(0, i + 1) by {
                let v = vals_of(g@, r@.push(f), env);
                let w = combined_of(g0@, cs@, env).subrange(0, i + 1);
                assert forall|k: int| 0 <= k < i + 1 implies v[k] == w[k] by {
                    if k < i {
                        assert(v[k] == vals_of(g@, r@, env)[k]);
                        assert(vals_of(g@, r@, env) == vals_of(g1@, r@, env));
                        assert(vals_of(g1@, r@, env)[k] == combined_of(g0@, cs@, env).subrange(0, i as int)[k]);
                    } else {
                        assert(v[k] == node_val(g@, f, env));
                    }
                }
                assert(v =~= w);
            }
            assert(random_needed(g0@, cs@, (i + 1) as nat) == max_of(random_needed(g0@, cs@, i as nat), max_of(1, col_args(g0@, c).len())));
        }
        r.push(f);
        i = i + 1;
    }
    proof {
        assert forall|env: Env| #[trigger] vals_of(g@, r@, env) == combined_of(g0@, cs@, env) by {
            assert(combined_of(g0@, cs@, env).subrange(0, i as int) =~= combined_of(g0@, cs@, env));
        }
    }
    r
}

/// The position skipped by a product, or none.
pub open spec fn skip_pos(skip: Option<usize>) -> int {
    match skip {
        Some(s) => s as int,
        None => -1,
    }
}

/// Stores the product of the nodes `fids` from the left, leaving out position `skip`; no
/// node when the product is empty.
fn product_except(g: &mut Graph, fids: &Vec<NodeId>, skip: Option<usize>) -> (r: Option<NodeId>)
    requires
        old(g).wf(),
        all_below(fids@, old(g)@.len()),
    ensures
        final(g).wf(),
        final(g).extends(old(g)),
        r matches Some(x) ==> x < final(g)@.len() && forall|env: Env| #[trigger] node_val(final(g)@, x, env)
            == prod_except(vals_of(old(g)@, fids@, env), skip_pos(skip), fids@.len()),
        r is None ==> forall|env: Env| #[trigger] prod_except(vals_of(old(g)@, fids@, env), skip_pos(skip), fids@.len()) == 1,
{
    let ghost g0 = *g;
    proof {
        lemma_extends_refl(g);
    }
    let mut acc: Option<NodeId> = None;
    let mut j: usize = 0;
    while j < fids.len()
        invariant
            g.wf(),
            g.extends(&g0),
            all_below(fids@, g0@.len()),
            j <= fids@.len(),
            acc matches Some(x) ==> x < g@.len() && forall|env: Env| #[trigger] node_val(g@, x, env)
                == prod_except(vals_of(g0@, fids@, env), skip_pos(skip), j as nat),
            acc is None ==> forall|env: Env| #[trigger] prod_except(vals_of(g0@, fids@, env), skip_pos(skip), j as nat) == 1,
        decreases fids@.len() - j,
    {
        let ghost g1 = *g;
        let ghost j1: nat = (j + 1) as nat;
        let skipped = match skip {
            Some(s) => s == j,
            None => false,
        };
        if !skipped {
            let fj = fids[j];
            proof {
                lemma_val_kept(&g0, &g1, fj);
            }
            let n = match acc {
                Some(x) => mk_mul(g, x, fj),
                None => fj,
            };
            proof {
                lemma_extends_refl(g);
                assert(g.extends(&g1));
                lemma_extends_trans(&g0, &g1, g);
                assert forall|env: Env| #[trigger] node_val(g@, n, env) == prod_except(vals_of(g0@, fids@, env), skip_pos(skip), j1) by {
                    let fs = vals_of(g0@, fids@, env);
                    assert(prod_except(fs, skip_pos(skip), j1) == prod_except(fs, skip_pos(skip), j as nat) * fs[j as int]);
                    if let Some(x) = acc {
                        lemma_val_kept(&g1, g, x);
                    }
                }
            }
            acc = Some(n);
        } else {
            proof {
                assert forall|env: Env| #[trigger] prod_except(vals_of(g0@, fids@, env), skip_pos(skip), j1)
                    == prod_except(vals_of(g0@, fids@, env), skip_pos(skip), j as nat) by {}
            }
        }
        j = j + 1;
    }
    acc
}

/// Stores, for each kind, the sum over its columns of `latch_i · Π_{j ≠ i} f_j`, where the
/// nodes `factors` hold the combined arguments `f_j`; no node for a kind without columns.
fn logup_sums(
    g: &mut Graph,
    factors: &Vec<NodeId>,
    cs: &Vec<NodeId>,
    ls: &Vec<NodeId>,
    Ghost(g0): Ghost<Graph>,
) -> (r: (Option<NodeId>, Option<NodeId>))
    requires
        old(g).wf(),
        old(g).extends(&g0),
        g0.wf(),
        cs@.len() == ls@.len(),
        factors@.len() == cs@.len(),
        all_below(ls@, g0@.len()),
        all_below(factors@, old(g)@.len()),
        forall|j: int| 0 <= j < cs@.len() ==> is_bus_op(g0@, #[trigger] cs@[j]),
        forall|env: Env| #[trigger] vals_of(old(g)@, factors@, env) == combined_of(g0@, cs@, env),
    ensures
        final(g).wf(),
        final(g).extends(old(g)),
        r.0 matches Some(x) ==> x < final(g)@.len() && forall|env: Env| #[trigger] node_val(final(g)@, x, env)
            == sum_of_kind(kinds_of(g0@, cs@), combined_of(g0@, cs@, env), vals_of(g0@, ls@, env), BusOpKind::Add, cs@.len()),
        r.0 is None ==> forall|env: Env| #[trigger] sum_of_kind(kinds_of(g0@, cs@), combined_of(g0@, cs@, env), vals_of(g0@, ls@, env), BusOpKind::Add, cs@.len()) == 0,
        r.1 matches Some(x) ==> x < final(g)@.len() && forall|env: Env| #[trigger] node_val(final(g)@, x, env)
            == sum_of_kind(kinds_of(g0@, cs@), combined_of(g0@, cs@, env), vals_of(g0@, ls@, env), BusOpKind::Rem, cs@.len()),
        r.1 is None ==> forall|env: Env| #[trigger] sum_of_kind(kinds_of(g0@, cs@), combined_of(g0@, cs@, env), vals_of(g0@, ls@, env), BusOpKind::Rem, cs@.len()) == 0,
{
    let ghost g2 = *g;
    let ghost ks = kinds_of(g0@, cs@);
    proof {
        lemma_extends_refl(g);
        lemma_vals_kept(&g0, &g2, ls@);
    }
    let mut added: Option<NodeId> = None;
    let mut removed: Option<NodeId> = None;
    let mut i: usize = 0;
    while i < cs.len()
        invariant
            g.wf(),
            g.extends(&g2),
            g2.extends(&g0),
            g0.wf(),
            ks == kinds_of(g0@, cs@),
            cs@.len() == ls@.len(),
            factors@.len() == cs@.len(),
            all_below(ls@, g0@.len()),
            all_below(factors@, g2@.len()),
            forall|j: int| 0 <= j < cs@.len() ==> is_bus_op(g0@, #[trigger] cs@[j]),
            forall|env: Env| #[trigger] vals_of(g2@, factors@, env) == combined_of(g0@, cs@, env),
            forall|env: Env| #[trigger] vals_of(g2@, ls@, env) == vals_of(g0@, ls@, env),
            i <= cs@.len(),
            added matches Some(x) ==> x < g@.len() && forall|env: Env| #[trigger] node_val(g@, x, env)
                == sum_of_kind(ks, combined_of(g0@, cs@, env), vals_of(g0@, ls@, env), BusOpKind::Add, i as nat),
            added is None ==> forall|env: Env| #[trigger] sum_of_kind(ks, combined_of(g0@, cs@, env), vals_of(g0@, ls@, env), BusOpKind::Add, i as nat) == 0,
            removed matches Some(x) ==> x < g@.len() && forall|env: Env| #[trigger] node_val(g@, x, env)
                == sum_of_kind(ks, combined_of(g0@, cs@, env), vals_of(g0@, ls@, env), BusOpKind::Rem, i as nat),
            removed is None ==> forall|env: Env| #[trigger] sum_of_kind(ks, combined_of(g0@, cs@, env), vals_of(g0@, ls@, env), BusOpKind::Rem, i as nat) == 0,
        decreases cs@.len() - i,
    {
        let ghost g3 = *g;
        let ghost i1: nat = (i + 1) as nat;
        let c = cs[i];
        let l = ls[i];
        proof {
            assert(is_bus_op(g0@, c));
            lemma_extends_trans(&g0, &g2, &g3);
            lemma_column_kept(&g0, &g3, c);
            lemma_vals_kept(&g2, &g3, factors@);
        }
        let kind = bus_op_kind(g, c);
        let fw = product_except(g, &factors, Some(i));
        let ghost g4 = *g;
        proof {
            lemma_extends_trans(&g0, &g3, &g4);
            lemma_val_kept(&g0, &g4, l);
        }
        let fwl = match fw {
            Some(x) => mk_mul(g, x, l),
            None => l,
        };
        let ghost g5 = *g;
        proof {
            lemma_extends_refl(g);
            assert(g.extends(&g4));
            lemma_extends_trans(&g3, &g4, &g5);
            assert forall|env: Env| #[trigger] node_val(g5@, fwl, env) == prod_except(combined_of(g0@, cs@, env), i as int, cs@.len()) * vals_of(g0@, ls@, env)[i as int] by {
                assert(vals_of(g3@, factors@, env) == combined_of(g0@, cs@, env));
                assert(vals_of(g0@, ls@, env)[i as int] == node_val(g0@, l, env));
                assert(skip_pos(Some(i)) == i as int);
                assert(node_val(g4@, l, env) == node_val(g0@, l, env));
            }
            assert(ks[i as int] == kind);
        }
        match kind {
            BusOpKind::Add => {
                let n = match added {
                    Some(a) => mk_add(g, a, fwl),
                    None => fwl,
                };
                proof {
                    lemma_extends_refl(g);
                    assert(g.extends(&g5));
                    if let Some(a) = added {
                        lemma_val_kept(&g3, &g5, a);
                    }
                    if let Some(x) = removed {
                        lemma_val_kept(&g3, &g5, x);
                        lemma_val_kept(&g5, g, x);
                    }
                    lemma_val_kept(&g5, g, fwl);
                    assert forall|env: Env| #[trigger] node_val(g@, n, env) == sum_of_kind(ks, combined_of(g0@, cs@, env), vals_of(g0@, ls@, env), BusOpKind::Add, i1) by {
                        let fs = combined_of(g0@, cs@, env);
                        let ss = vals_of(g0@, ls@, env);
                        assert(sum_of_kind(ks, fs, ss, BusOpKind::Add, i1) == sum_of_kind(ks, fs, ss, BusOpKind::Add, i as nat) + prod_except(fs, i as int, fs.len()) * ss[i as int]);
                    }
                    assert forall|env: Env| #[trigger] sum_of_kind(ks, combined_of(g0@, cs@, env), vals_of(g0@, ls@, env), BusOpKind::Rem, i1)
                        == sum_of_kind(ks, combined_of(g0@, cs@, env), vals_of(g0@, ls@, env), BusOpKind::Rem, i as nat) by {}
                }
                added = Some(n);
            },
            BusOpKind::Rem => {
                let n = match removed {
                    Some(a) => mk_add(g, a, fwl),
                    None => fwl,
                };
                proof {
                    lemma_extends_refl(g);
                    assert(g.extends(&g5));
                    if let Some(a) = removed {
                        lemma_val_kept(&g3, &g5, a);
                    }
                    if let Some(x) = added {
                        lemma_val_kept(&g3, &g5, x);
                        lemma_val_kept(&g5, g, x);
                    }
                    lemma_val_kept(&g5, g, fwl);
                    assert forall|env: Env| #[trigger] node_val(g@, n, env) == sum_of_kind(ks, combined_of(g0@, cs@, env), vals_of(g0@, ls@, env), BusOpKind::Rem, i1) by {
                        let fs = combined_of(g0@, cs@, env);
                        let ss = vals_of(g0@, ls@, env);
                        assert(sum_of_kind(ks, fs, ss, BusOpKind::Rem, i1) == sum_of_kind(ks, fs, ss, BusOpKind::Rem, i as nat) + prod_except(fs, i as int, fs.len()) * ss[i as int]);
                    }
                    assert forall|env: Env| #[trigger] sum_of_kind(ks, combined_of(g0@, cs@, env), vals_of(g0@, ls@, env), BusOpKind::Add, i1)
                        == sum_of_kind(ks, combined_of(g0@, cs@, env), vals_of(g0@, ls@, env), BusOpKind::Add, i as nat) by {}
                }
                removed = Some(n);
            },
        }
        proof {
            lemma_extends_trans(&g3, &g5, g);
            lemma_extends_trans(&g2, &g3, g);
        }
        i = i + 1;
    }
    (added, removed)
}

/// The value of an optional node, or `default` when there is none.
pub open spec fn opt_val(g: Seq<Op>, o: Option<NodeId>, default: int, env: Env) -> int {
    match o {
        Some(x) => node_val(g, x, env),
        None => default,
    }
}

/// Stores `(T·q + A) - (T·q1 + R)` as an enforced constraint, where the optional nodes give
/// `T` (one when absent), `A` and `R` (zero when absent).
fn logup_constraint(
    g: &mut Graph,
    total: Option<NodeId>,
    added: Option<NodeId>,
    removed: Option<NodeId>,
    q: NodeId,
    q1: NodeId,
) -> (root: NodeId)
    requires
        old(g).wf(),
        total matches Some(x) ==> x < old(g)@.len(),
        added matches Some(x) ==> x < old(g)@.len(),
        removed matches Some(x) ==> x < old(g)@.len(),
        q < old(g)@.len(),
        q1 < old(g)@.len(),
    ensures
        final(g).wf(),
        final(g).extends(old(g)),
        root < final(g)@.len(),
        final(g)@[root as int] is Enf,
        forall|env: Env| #[trigger] node_val(final(g)@, root, env) == (opt_val(old(g)@, total, 1, env)
            * node_val(old(g)@, q, env) + opt_val(old(g)@, added, 0, env)) - (opt_val(old(g)@, total, 1, env)
            * node_val(old(g)@, q1, env) + opt_val(old(g)@, removed, 0, env)),
{
    let ghost g6 = *g;
    proof {
        lemma_extends_refl(g);
    }
    let q_prod = match total {
        Some(t) => mk_mul(g, t, q),
        None => q,
    };
    let ghost g7 = *g;
    proof {
        lemma_extends_refl(g);
        assert(g.extends(&g6));
        if let Some(t) = total {
            lemma_val_kept(&g6, &g7, t);
        }
        lemma_val_kept(&g6, &g7, q1);
    }
    let q_prime_prod = match total {
        Some(t) => mk_mul(g, t, q1),
        None => q1,
    };
    let ghost g8 = *g;
    proof {
        lemma_extends_refl(g);
        assert(g.extends(&g7));
        lemma_extends_trans(&g6, &g7, &g8);
        lemma_val_kept(&g7, &g8, q_prod);
        if let Some(a) = added {
            lemma_val_kept(&g6, &g8, a);
        }
        if let Some(x) = removed {
            lemma_val_kept(&g6, &g8, x);
        }
    }
    let q_term = match added {
        Some(a) => mk_add(g, q_prod, a),
        None => q_prod,
    };
    let ghost g9 = *g;
    proof {
        lemma_extends_refl(g);
        assert(g.extends(&g8));
        lemma_val_kept(&g8, &g9, q_prime_prod);
        if let Some(x) = removed {
            lemma_val_kept(&g8, &g9, x);
        }
    }
    let q_prime_term = match removed {
        Some(x) => mk_add(g, q_prime_prod, x),
        None => q_prime_prod,
    };
    let ghost g10 = *g;
    proof {
        lemma_extends_refl(g);
        assert(g.extends(&g9));
        lemma_extends_trans(&g8, &g9, &g10);
        lemma_val_kept(&g9, &g10, q_term);
    }
    let diff = mk_sub(g, q_term, q_prime_term);
    let ghost g11 = *g;
    let root = g.insert(Op::Enf(diff));
    proof {
        lemma_term_kept(&g11, g, diff as nat);
        lemma_extends_trans(&g10, &g11, g);
        lemma_extends_trans(&g8, &g10, g);
        lemma_extends_trans(&g6, &g8, g);
        assert forall|env: Env| #[trigger] node_val(g@, root, env) == (opt_val(g6@, total, 1, env)
            * node_val(g6@, q, env) + opt_val(g6@, added, 0, env)) - (opt_val(g6@, total, 1, env)
            * node_val(g6@, q1, env) + opt_val(g6@, removed, 0, env)) by {
            assert(node_val(g@, root, env) == node_val(g11@, diff, env));
        }
    }
    root
}

/// Expands a LogUp bus with columns `cs` and latches `ls` into one constraint, given nodes
/// for the bus column at the current row (`q`) and at the next row (`q1`).
pub(crate) fn expand_mult(
    g: &mut Graph,
    cs: &Vec<NodeId>,
    ls: &Vec<NodeId>,
    q: NodeId,
    q1: NodeId,
    max_random: &mut usize,
) -> (root: NodeId)
    requires
        old(g).wf(),
        cs@.len() == ls@.len(),
        all_below(ls@, old(g)@.len()),
        forall|i: int| 0 <= i < cs@.len() ==> is_bus_op(old(g)@, #[trigger] cs@[i]),
        forall|i: int| 0 <= i < cs@.len() ==> col_args(old(g)@, #[trigger] cs@[i]).len() < usize::MAX,
        q < old(g)@.len(),
        q1 < old(g)@.len(),
    ensures
        final(g).wf(),
        final(g).extends(old(g)),
        root < final(g)@.len(),
        final(g)@[root as int] is Enf,
        forall|env: Env| #[trigger] node_val(final(g)@, root, env) == mult_law_with(
            old(g)@,
            cs@,
            ls@,
            node_val(old(g)@, q, env),
            node_val(old(g)@, q1, env),
            env,
        ),
        *final(max_random) as nat == max_of(*old(max_random) as nat, random_needed(old(g)@, cs@, cs@.len())),
{
    let ghost g0 = *g;
    let factors = combine_columns(g, cs, max_random);
    let ghost g1 = *g;
    let total = product_except(g, &factors, None);
    let ghost g2 = *g;
    proof {
        lemma_extends_trans(&g0, &g1, &g2);
        lemma_vals_kept(&g1, &g2, factors@);
        lemma_vals_kept(&g0, &g2, ls@);
    }
    proof {
        lemma_extends_refl(g);
    }
    let (added, removed) = logup_sums(g, &factors, cs, ls, Ghost(g0));
    let ghost g6 = *g;
    proof {
        lemma_extends_trans(&g0, &g2, &g6);
        lemma_val_kept(&g0, &g6, q);
        lemma_val_kept(&g0, &g6, q1);
        if let Some(t) = total {
            lemma_val_kept(&g2, &g6, t);
        }
    }
    let root = logup_constraint(g, total, added, removed, q, q1);
    proof {
        lemma_extends_trans(&g0, &g6, g);
        assert forall|env: Env| #[trigger] node_val(g@, root, env) == mult_law_with(
            g0@,
            cs@,
            ls@,
            node_val(g0@, q, env),
            node_val(g0@, q1, env),
            env,
        ) by {
            let fs = combined_of(g0@, cs@, env);
            assert(vals_of(g1@, factors@, env) == fs);
            assert(skip_pos(None) == -1);
        }
    }
    root
}

} // verus!
