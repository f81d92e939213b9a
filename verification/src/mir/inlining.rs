//! Inlining of calls to functions and evaluators.
//!
//! Calls are inlined callees first: a function or evaluator is inlined only once every callee
//! in its own body has been. A call to a function is replaced by a copy of the function's
//! result with its parameters replaced by the call's arguments. A call to an evaluator takes one
//! vector of trace columns per trace segment; its arguments are checked against the parameters
//! of the evaluator and split into single columns before its body is copied.
use vstd::prelude::*;
use crate::mir::graph::{
    all_below, CompileError, Graph, MirType, MirValue, NodeId, Op, TraceAccessBinding,
};
use crate::mir::term::{term, Term};
use crate::mir::subst::{
    copied, duplicate_node_or_replace, has_copy, key_in, keys_ready, operands, param_terms, ready_to_copy,
    renamed, subst,
};
use std::collections::HashMap;
use crate::mir::duplicate::{lemma_extends_refl, lemma_extends_trans, lemma_term_kept};

verus! {

/// The number of trace columns an argument of an evaluator call stands for: a binding counts
/// its columns, a single column counts one, a parameter counts the length of its type. Other
/// arguments have no width.
pub open spec fn arg_width(op: Op) -> Option<nat> {
    match op {
        Op::Value(MirValue::TraceAccessBinding(b)) => Some(b.size as nat),
        Op::Value(MirValue::TraceAccess(_)) => Some(1),
        Op::Parameter(_, MirType::Felt) => Some(1),
        Op::Parameter(_, MirType::Vector(n)) => Some(n as nat),
        _ => None,
    }
}

/// The total width of the arguments `cs`.
pub open spec fn segment_width(g: Seq<Op>, cs: Seq<NodeId>) -> nat
    decreases cs.len(),
{
    if cs.len() == 0 {
        0
    } else {
        segment_width(g, cs.drop_last()) + arg_width(g[cs.last() as int]).unwrap()
    }
}

/// The arguments of the trace segment stored at node `a`.
pub open spec fn segment_args(g: Seq<Op>, a: NodeId) -> Seq<NodeId> {
    match g[a as int] {
        Op::Vector(cs) => cs@,
        _ => Seq::empty(),
    }
}

/// The argument of one trace segment has the expected form: a vector of arguments that have a
/// width.
pub open spec fn segment_arg_ok(g: Seq<Op>, a: NodeId) -> bool {
    &&& a < g.len()
    &&& g[a as int] is Vector
    &&& all_below(segment_args(g, a), g.len())
    &&& forall|k: int|
        0 <= k < segment_args(g, a).len() ==> (#[trigger] arg_width(
            g[segment_args(g, a)[k] as int],
        )) is Some
}

/// The arguments of the first `n` trace segments have the expected form, and their widths add
/// up within `usize`.
pub open spec fn evaluator_args_ok(g: Seq<Op>, args: Seq<NodeId>, n: int) -> bool {
    forall|i: int|
        0 <= i < n && 0 <= i < args.len() ==> segment_arg_ok(g, #[trigger] args[i])
            && segment_width(g, segment_args(g, args[i])) <= usize::MAX
}

proof fn lemma_segment_width_prefix(g: Seq<Op>, cs: Seq<NodeId>, n: int)
    requires
        0 <= n <= cs.len(),
        forall|k: int| 0 <= k < cs.len() ==> (#[trigger] arg_width(g[cs[k] as int])) is Some,
    ensures
        segment_width(g, cs.subrange(0, n)) <= segment_width(g, cs),
    decreases cs.len() - n,
{
    if n < cs.len() {
        lemma_segment_width_prefix(g, cs, n + 1);
        assert(cs.subrange(0, n + 1).drop_last() =~= cs.subrange(0, n));
        assert(cs.subrange(0, n + 1).last() == cs[n]);
    } else {
        assert(cs.subrange(0, n) =~= cs);
    }
}

/// The width of one argument.
fn arg_width_of(g: &Graph, c: NodeId) -> (r: usize)
    requires
        c < g@.len(),
        arg_width(g@[c as int]) is Some,
    ensures
        r == arg_width(g@[c as int]).unwrap(),
{
    match &g.nodes[c] {
        Op::Value(MirValue::TraceAccessBinding(b)) => b.size,
        Op::Parameter(_, MirType::Vector(n)) => *n,
        _ => 1,
    }
}

/// The number of trace columns the arguments of one trace segment stand for.
fn trace_segment_arg_len(g: &Graph, a: NodeId) -> (r: usize)
    requires
        segment_arg_ok(g@, a),
        segment_width(g@, segment_args(g@, a)) <= usize::MAX,
    ensures
        r == segment_width(g@, segment_args(g@, a)),
{
    let ghost cs = segment_args(g@, a);
    match &g.nodes[a] {
        Op::Vector(children) => {
            let mut total: usize = 0;
            let mut k: usize = 0;
            while k < children.len()
                invariant
                    cs == children@,
                    k <= children@.len(),
                    all_below(cs, g@.len()),
                    forall|j: int| 0 <= j < cs.len() ==> (#[trigger] arg_width(g@[cs[j] as int])) is Some,
                    segment_width(g@, cs) <= usize::MAX,
                    total == segment_width(g@, cs.subrange(0, k as int)),
                decreases children@.len() - k,
            {
                proof {
                    lemma_segment_width_prefix(g@, cs, k + 1);
                    assert(cs.subrange(0, k + 1).drop_last() =~= cs.subrange(0, k as int));
                }
                let w = arg_width_of(g, children[k]);
                total = total + w;
                k = k + 1;
            }
            assert(cs.subrange(0, k as int) =~= cs);
            total
        },
        _ => 0,
    }
}

/// The arguments of an evaluator call match its parameters: for each trace segment that both
/// have, the number of parameters is the number of columns the arguments stand for.
pub open spec fn evaluator_args_match(g: Seq<Op>, params: Seq<usize>, args: Seq<NodeId>) -> bool {
    forall|i: int|
        0 <= i < params.len() && 0 <= i < args.len() ==> #[trigger] params[i] == segment_width(
            g,
            segment_args(g, args[i]),
        )
}

/// Checks the arguments of an evaluator call against the number of parameters of each of its
/// trace segments.
pub fn check_evaluator_args(g: &Graph, params: &Vec<usize>, args: &Vec<NodeId>) -> (r: Result<
    (),
    CompileError,
>)
    requires
        evaluator_args_ok(g@, args@, params@.len() as int),
    ensures
        r is Ok <==> evaluator_args_match(g@, params@, args@),
        r is Err ==> r == Err::<(), CompileError>(CompileError::Failed),
{
    let mut i: usize = 0;
    while i < params.len() && i < args.len()
        invariant
            evaluator_args_ok(g@, args@, params@.len() as int),
            i <= params@.len(),
            i <= args@.len(),
            forall|j: int|
                0 <= j < i ==> #[trigger] params@[j] == segment_width(g@, segment_args(g@, args@[j])),
        decreases params@.len() - i,
    {
        let a = args[i];
        if params[i] != trace_segment_arg_len(g, a) {
            return Err(CompileError::Failed);
        }
        i = i + 1;
    }
    Ok(())
}

/// The single-column arguments that argument `c` stands for: a binding of several columns is
/// split into bindings of one column each; any other argument stands for itself.
pub open spec fn split_arg(g: Seq<Op>, c: NodeId) -> Seq<Term> {
    match g[c as int] {
        Op::Value(MirValue::TraceAccessBinding(b)) => if b.size > 1 {
            Seq::new(
                b.size as nat,
                |i: int|
                    Term::Value(
                        MirValue::TraceAccessBinding(
                            TraceAccessBinding {
                                segment: b.segment,
                                offset: (b.offset + i) as usize,
                                size: 1,
                            },
                        ),
                    ),
            )
        } else {
            seq![term(g, c as nat)]
        },
        _ => seq![term(g, c as nat)],
    }
}

/// The single-column arguments that the arguments `cs` stand for, in order.
pub open spec fn split_args(g: Seq<Op>, cs: Seq<NodeId>) -> Seq<Term>
    decreases cs.len(),
{
    if cs.len() == 0 {
        Seq::empty()
    } else {
        split_args(g, cs.drop_last()) + split_arg(g, cs.last())
    }
}

/// The single-column arguments of an evaluator call, trace segment after trace segment.
pub open spec fn unpacked_args(g: Seq<Op>, args: Seq<NodeId>) -> Seq<Term>
    decreases args.len(),
{
    if args.len() == 0 {
        Seq::empty()
    } else {
        unpacked_args(g, args.drop_last()) + split_args(g, segment_args(g, args.last()))
    }
}

/// The columns of every binding among the arguments are numbered within `usize`.
pub open spec fn bindings_fit(g: Seq<Op>, args: Seq<NodeId>) -> bool {
    forall|i: int, k: int|
        0 <= i < args.len() && 0 <= k < segment_args(g, args[i]).len() ==> (g[#[trigger] segment_args(
            g,
            args[i],
        )[k] as int] matches Op::Value(MirValue::TraceAccessBinding(b)) ==> b.offset + b.size
            <= usize::MAX)
}

proof fn lemma_param_terms_kept(old: &Graph, new: &Graph, ids: Seq<NodeId>)
    requires
        new.extends(old),
        all_below(ids, old@.len()),
    ensures
        param_terms(new@, ids) == param_terms(old@, ids),
{
    assert forall|k: int| 0 <= k < ids.len() implies param_terms(new@, ids)[k] == param_terms(old@, ids)[k] by {
        lemma_term_kept(old, new, ids[k] as nat);
    }
    assert(param_terms(new@, ids) =~= param_terms(old@, ids));
}

/// Splits the arguments of an evaluator call into single-column arguments: a binding of
/// several columns becomes new bindings of one column each, stored in the graph; any other
/// argument is kept.
pub fn unpack_evaluator_args(g: &mut Graph, args: &Vec<NodeId>) -> (r: Vec<NodeId>)
    requires
        old(g).wf(),
        forall|i: int| 0 <= i < args@.len() ==> segment_arg_ok(old(g)@, #[trigger] args@[i]),
        bindings_fit(old(g)@, args@),
    ensures
        final(g).wf(),
        final(g).extends(old(g)),
        all_below(r@, final(g)@.len()),
        param_terms(final(g)@, r@) == unpacked_args(old(g)@, args@),
{
    let ghost g0 = *g;
    proof {
        lemma_extends_refl(g);
    }
    let mut r: Vec<NodeId> = Vec::new();
    let mut i: usize = 0;
    while i < args.len()
        invariant
            g.wf(),
            g.extends(&g0),
            forall|x: int| 0 <= x < args@.len() ==> segment_arg_ok(g0@, #[trigger] args@[x]),
            bindings_fit(g0@, args@),
            i <= args@.len(),
            all_below(r@, g@.len()),
            param_terms(g@, r@) == unpacked_args(g0@, args@.subrange(0, i as int)),
        decreases args@.len() - i,
    {
        let a = args[i];
        let ghost cs = segment_args(g0@, a);
        let ghost base = param_terms(g@, r@);
        proof {
            assert(args@.subrange(0, i + 1).drop_last() =~= args@.subrange(0, i as int));
            assert(args@.subrange(0, i + 1).last() == a);
            assert(segment_arg_ok(g0@, a));
            assert(g@[a as int] == g0@[a as int]) by {
                assert(g@.subrange(0, g0@.len() as int)[a as int] == g@[a as int]);
            }
        }
        let children = match &g.nodes[a] {
            Op::Vector(cs) => crate::mir::graph::copy_ids(cs),
            _ => Vec::new(),
        };
        assert(children@ == cs);
        let mut k: usize = 0;
        while k < children.len()
            invariant
                g.wf(),
                g.extends(&g0),
                cs == children@,
                all_below(cs, g0@.len()),
                forall|x: int| 0 <= x < cs.len() ==> (#[trigger] arg_width(g0@[cs[x] as int])) is Some,
                forall|x: int| 0 <= x < cs.len() ==> (g0@[#[trigger] cs[x] as int] matches Op::Value(
                    MirValue::TraceAccessBinding(b),
                ) ==> b.offset + b.size <= usize::MAX),
                k <= cs.len(),
                all_below(r@, g@.len()),
                param_terms(g@, r@) == base + split_args(g0@, cs.subrange(0, k as int)),
            decreases cs.len() - k,
        {
            let c = children[k];
            let ghost gk = *g;
            let ghost rk = r@;
            proof {
                assert(cs.subrange(0, k + 1).drop_last() =~= cs.subrange(0, k as int));
                assert(cs.subrange(0, k + 1).last() == c);
                assert(g@[c as int] == g0@[c as int]) by {
                    assert(g@.subrange(0, g0@.len() as int)[c as int] == g@[c as int]);
                }
                lemma_term_kept(&g0, g, c as nat);
            }
            let split = match &g.nodes[c] {
                Op::Value(MirValue::TraceAccessBinding(b)) => if b.size > 1 {
                    Some(*b)
                } else {
                    None
                },
                _ => None,
            };
            match split {
                Some(b) => {
                    assert(g0@[c as int] == Op::Value(MirValue::TraceAccessBinding(b)));
                    proof {
                        lemma_extends_refl(g);
                    }
                    let mut idx: usize = 0;
                    while idx < b.size
                        invariant
                            g.wf(),
                            g.extends(&gk),
                            gk.wf(),
                            b.offset + b.size <= usize::MAX,
                            idx <= b.size,
                            rk.len() <= r@.len(),
                            r@.subrange(0, rk.len() as int) == rk,
                            all_below(r@, g@.len()),
                            all_below(rk, gk@.len()),
                            r@.len() == rk.len() + idx,
                            forall|x: int|
                                0 <= x < idx ==> #[trigger] term(g@, r@[rk.len() + x] as nat) == Term::Value(
                                    MirValue::TraceAccessBinding(
                                        TraceAccessBinding {
                                            segment: b.segment,
                                            offset: (b.offset + x) as usize,
                                            size: 1,
                                        },
                                    ),
                                ),
                        decreases b.size - idx,
                    {
                        let ghost gi = *g;
                        let v = MirValue::TraceAccessBinding(
                            TraceAccessBinding { segment: b.segment, offset: b.offset + idx, size: 1 },
                        );
                        let id = g.insert(Op::Value(v));
                        proof {
                            assert forall|x: int| 0 <= x < idx implies #[trigger] term(
                                g@,
                                r@[rk.len() + x] as nat,
                            ) == term(gi@, r@[rk.len() + x] as nat) by {
                                lemma_term_kept(&gi, g, r@[rk.len() + x] as nat);
                            }
                            lemma_extends_trans(&gk, &gi, g);
                        }
                        r.push(id);
                        proof {
                            assert(r@.subrange(0, rk.len() as int) =~= rk);
                        }
                        idx = idx + 1;
                    }
                    proof {
                        lemma_param_terms_kept(&gk, g, rk);
                        assert(param_terms(gk@, rk) == base + split_args(g0@, cs.subrange(0, k as int)));
                        assert(param_terms(g@, r@) =~= param_terms(g@, rk) + split_arg(g0@, c)) by {
                            assert forall|x: int| 0 <= x < rk.len() implies param_terms(g@, r@)[x] == param_terms(
                                g@,
                                rk,
                            )[x] by {
                                assert(r@[x] == rk[x]);
                            }
                            assert forall|x: int| rk.len() <= x < r@.len() implies param_terms(g@, r@)[x]
                                == split_arg(g0@, c)[x - rk.len()] by {
                                let y = x - rk.len();
                                assert(term(g@, r@[rk.len() + y] as nat) == Term::Value(
                                    MirValue::TraceAccessBinding(
                                        TraceAccessBinding {
                                            segment: b.segment,
                                            offset: (b.offset + y) as usize,
                                            size: 1,
                                        },
                                    ),
                                ));
                            }
                        }
                    }
                },
                None => {
                    r.push(c);
                    proof {
                        lemma_extends_refl(&gk);
                        assert(param_terms(g@, r@) =~= param_terms(g@, rk).push(term(g@, c as nat)));
                        assert(split_arg(g0@, c) == seq![term(g0@, c as nat)]);
                    }
                },
            }
            proof {
                lemma_extends_trans(&g0, &gk, g);
                assert(base + split_args(g0@, cs.subrange(0, (k + 1) as int)) =~= base
                    + split_args(g0@, cs.subrange(0, k as int)) + split_arg(g0@, c));
            }
            k = k + 1;
        }
        proof {
            assert(cs.subrange(0, k as int) =~= cs);
            assert(unpacked_args(g0@, args@.subrange(0, i + 1)) =~= unpacked_args(
                g0@,
                args@.subrange(0, i as int),
            ) + split_args(g0@, cs));
        }
        i = i + 1;
    }
    proof {
        assert(args@.subrange(0, i as int) =~= args@);
    }
    r
}

/// The callees of each function or evaluator, by index.
pub open spec fn deps_view(deps: Seq<Vec<usize>>) -> Seq<Seq<usize>> {
    Seq::new(deps.len(), |i: int| deps[i]@)
}

/// `o` is an order in which the functions and evaluators can be inlined: it lists every one of
/// them, and each comes after all its callees.
pub open spec fn is_inlining_order(deps: Seq<Seq<usize>>, o: Seq<usize>) -> bool {
    &&& forall|p: int| 0 <= p < o.len() ==> #[trigger] o[p] < deps.len()
    &&& forall|f: usize| f < deps.len() ==> #[trigger] o.contains(f)
    &&& forall|p: int, x: usize|
        0 <= p < o.len() && #[trigger] deps[o[p] as int].contains(x) ==> exists|q: int|
            0 <= q < p && o[q] == x
}

/// No element occurs twice in `s`.
pub open spec fn distinct(s: Seq<usize>) -> bool {
    forall|p: int, q: int| 0 <= p < q < s.len() ==> s[p] != s[q]
}

/// The number of `true` among the first `n` flags.
pub open spec fn count_true(flags: Seq<bool>, n: nat) -> nat
    decreases n,
{
    if n == 0 {
        0
    } else {
        count_true(flags, (n - 1) as nat) + if flags[n - 1] {
            1nat
        } else {
            0nat
        }
    }
}

proof fn lemma_count_true_clear(flags: Seq<bool>, n: nat, f: int)
    requires
        0 <= f < n <= flags.len(),
        flags[f],
    ensures
        count_true(flags.update(f, false), n) + 1 == count_true(flags, n),
    decreases n,
{
    if n - 1 != f {
        lemma_count_true_clear(flags, (n - 1) as nat, f);
    } else {
        lemma_count_true_same(flags, flags.update(f, false), (n - 1) as nat);
    }
}

proof fn lemma_count_true_same(a: Seq<bool>, b: Seq<bool>, n: nat)
    requires
        n <= a.len(),
        n <= b.len(),
        forall|i: int| 0 <= i < n ==> a[i] == b[i],
    ensures
        count_true(a, n) == count_true(b, n),
    decreases n,
{
    if n > 0 {
        lemma_count_true_same(a, b, (n - 1) as nat);
    }
}

proof fn lemma_count_true_zero(flags: Seq<bool>, n: nat, f: int)
    requires
        0 <= f < n <= flags.len(),
        count_true(flags, n) == 0,
    ensures
        !flags[f],
    decreases n,
{
    if n - 1 != f {
        lemma_count_true_zero(flags, (n - 1) as nat, f);
    }
}

/// When every function left has a callee that is not inlined yet, no inlining order exists.
proof fn lemma_no_inlining_order(deps: Seq<Seq<usize>>, done: Seq<usize>, o: Seq<usize>)
    requires
        exists|f: usize| f < deps.len() && !#[trigger] done.contains(f),
        forall|f: usize|
            f < deps.len() && !done.contains(f) ==> exists|x: usize|
                #[trigger] deps[f as int].contains(x) && !done.contains(x),
    ensures
        !is_inlining_order(deps, o),
{
    if is_inlining_order(deps, o) {
        lemma_order_within_done(deps, done, o, o.len() as int);
        let f = choose|f: usize| f < deps.len() && !#[trigger] done.contains(f);
        assert(o.contains(f));
        let q = choose|q: int| 0 <= q < o.len() && o[q] == f;
        assert(done.contains(o[q]));
    }
}

/// In an inlining order, every function listed before position `k` is already inlined, when
/// each function left has a callee left.
proof fn lemma_order_within_done(deps: Seq<Seq<usize>>, done: Seq<usize>, o: Seq<usize>, k: int)
    requires
        is_inlining_order(deps, o),
        0 <= k <= o.len(),
        forall|f: usize|
            f < deps.len() && !done.contains(f) ==> exists|x: usize|
                #[trigger] deps[f as int].contains(x) && !done.contains(x),
    ensures
        forall|q: int| 0 <= q < k ==> done.contains(#[trigger] o[q]),
    decreases k,
{
    if k > 0 {
        lemma_order_within_done(deps, done, o, k - 1);
        let f = o[k - 1];
        if !done.contains(f) {
            let x = choose|x: usize| #[trigger] deps[f as int].contains(x) && !done.contains(x);
            let q = choose|q: int| 0 <= q < k - 1 && o[q] == x;
            assert(done.contains(o[q]));
        }
    }
}

/// A copy of a list with every occurrence of `f` removed.
fn without(v: &Vec<usize>, f: usize) -> (r: Vec<usize>)
    ensures
        forall|x: usize| #[trigger] r@.contains(x) <==> v@.contains(x) && x != f,
{
    let mut r: Vec<usize> = Vec::new();
    let mut k: usize = 0;
    while k < v.len()
        invariant
            k <= v@.len(),
            forall|x: usize|
                #[trigger] r@.contains(x) <==> (exists|j: int| 0 <= j < k && v@[j] == x) && x != f,
        decreases v@.len() - k,
    {
        let x = v[k];
        let ghost before = r@;
        if x != f {
            r.push(x);
        }
        proof {
            assert forall|y: usize| #[trigger] r@.contains(y) <==> (exists|j: int|
                0 <= j < k + 1 && v@[j] == y) && y != f by {
                if r@.contains(y) {
                    let j = choose|j: int| 0 <= j < r@.len() && r@[j] == y;
                    if j < before.len() {
                        assert(before[j] == y);
                        assert(before.contains(y));
                    } else {
                        assert(v@[k as int] == y);
                    }
                }
                if (exists|j: int| 0 <= j < k + 1 && v@[j] == y) && y != f {
                    let j = choose|j: int| 0 <= j < k + 1 && v@[j] == y;
                    if j < k {
                        assert(before.contains(y));
                        let i = choose|i: int| 0 <= i < before.len() && before[i] == y;
                        assert(r@[i] == y);
                    } else {
                        assert(r@[r@.len() - 1] == y);
                    }
                }
            }
        }
        k = k + 1;
    }
    proof {
        assert forall|x: usize| #[trigger] r@.contains(x) <==> v@.contains(x) && x != f by {
            if v@.contains(x) {
                let j = choose|j: int| 0 <= j < v@.len() && v@[j] == x;
                assert(v@[j] == x);
            }
        }
    }
    r
}

/// Orders the functions and evaluators so that each comes after its callees, taking each time
/// the first one whose callees are all ordered. Fails when the calls form a cycle.
pub fn create_inlining_order(deps: &Vec<Vec<usize>>) -> (r: Result<Vec<usize>, CompileError>)
    ensures
        r matches Ok(o) ==> is_inlining_order(deps_view(deps@), o@) && distinct(o@) && o@.len()
            == deps@.len(),
        r is Err ==> r == Err::<Vec<usize>, CompileError>(CompileError::Failed) && !exists|
            o: Seq<usize>,
        | is_inlining_order(deps_view(deps@), o),
{
    let ghost dv = deps_view(deps@);
    let n = deps.len();
    let mut cur: Vec<Vec<usize>> = Vec::new();
    let mut present: Vec<bool> = Vec::new();
    let mut i: usize = 0;
    while i < n
        invariant
            n == deps@.len(),
            dv == deps_view(deps@),
            i <= n,
            cur@.len() == i,
            present@.len() == i,
            forall|f: int| 0 <= f < i ==> #[trigger] present@[f],
            forall|f: int| 0 <= f < i ==> #[trigger] cur@[f]@ == dv[f],
            count_true(present@, i as nat) == i,
        decreases n - i,
    {
        cur.push(crate::mir::graph::copy_ids(&deps[i]));
        let ghost before = present@;
        present.push(true);
        proof {
            lemma_count_true_same(present@, before, i as nat);
            assert(count_true(present@, (i + 1) as nat) == count_true(present@, i as nat) + 1);
        }
        i = i + 1;
    }
    let mut order: Vec<usize> = Vec::new();
    let mut left: usize = n;
    while left > 0
        invariant
            n == deps@.len(),
            dv == deps_view(deps@),
            cur@.len() == n,
            present@.len() == n,
            left == count_true(present@, n as nat),
            order@.len() + left == n,
            forall|f: int| 0 <= f < n ==> (#[trigger] present@[f] <==> !order@.contains(f as usize)),
            forall|f: int, x: usize|
                0 <= f < n && present@[f] ==> (#[trigger] cur@[f]@.contains(x) <==> dv[f].contains(x)
                    && !order@.contains(x)),
            forall|p: int| 0 <= p < order@.len() ==> #[trigger] order@[p] < n,
            distinct(order@),
            forall|p: int, x: usize|
                0 <= p < order@.len() && #[trigger] dv[order@[p] as int].contains(x) ==> exists|q: int|
                    0 <= q < p && order@[q] == x,
        decreases left,
    {
        let mut f: usize = 0;
        while f < n && !(present[f] && cur[f].len() == 0)
            invariant
                n == cur@.len(),
                n == present@.len(),
                f <= n,
                forall|h: int| 0 <= h < f ==> !(#[trigger] present@[h] && cur@[h]@.len() == 0),
            decreases n - f,
        {
            f = f + 1;
        }
        if f == n {
            proof {
                assert forall|h: usize| h < dv.len() && !order@.contains(h) implies exists|
                    x: usize,
                | #[trigger] dv[h as int].contains(x) && !order@.contains(x) by {
                    assert(present@[h as int]);
                    assert(cur@[h as int]@.len() != 0);
                    let x = cur@[h as int]@[0];
                    assert(cur@[h as int]@.contains(x));
                }
                assert(exists|h: usize| h < dv.len() && !#[trigger] order@.contains(h)) by {
                    if forall|h: usize| h < dv.len() ==> #[trigger] order@.contains(h) {
                        assert forall|h: int| 0 <= h < n implies !#[trigger] present@[h] by {
                            assert(order@.contains(h as usize));
                        }
                        lemma_count_true_all_false(present@, n as nat);
                    }
                }
                assert forall|o: Seq<usize>| !is_inlining_order(dv, o) by {
                    lemma_no_inlining_order(dv, order@, o);
                }
            }
            return Err(CompileError::Failed);
        }
        let ghost before = order@;
        proof {
            assert(!before.contains(f));
            assert forall|x: usize| dv[f as int].contains(x) implies before.contains(x) by {
                if !before.contains(x) {
                    assert(cur@[f as int]@.contains(x));
                }
            }
            lemma_count_true_clear(present@, n as nat, f as int);
        }
        order.push(f);
        present.set(f, false);
        left = left - 1;
        proof {
            assert forall|y: usize| order@.contains(y) <==> before.contains(y) || y == f by {
                if order@.contains(y) {
                    let j = choose|j: int| 0 <= j < order@.len() && order@[j] == y;
                    if j < before.len() {
                        assert(before[j] == y);
                    }
                }
                if before.contains(y) {
                    let j = choose|j: int| 0 <= j < before.len() && before[j] == y;
                    assert(order@[j] == y);
                }
                if y == f {
                    assert(order@[before.len() as int] == y);
                }
            }
            assert forall|p: int, x: usize|
                0 <= p < order@.len() && #[trigger] dv[order@[p] as int].contains(x) implies exists|
                    q: int,
                | 0 <= q < p && order@[q] == x by {
                if p < before.len() {
                    assert(order@[p] == before[p]);
                    let q = choose|q: int| 0 <= q < p && before[q] == x;
                    assert(order@[q] == x);
                } else {
                    assert(before.contains(x));
                    let q = choose|q: int| 0 <= q < before.len() && before[q] == x;
                    assert(order@[q] == x);
                }
            }
        }
        let mut h: usize = 0;
        while h < n
            invariant
                n == deps@.len(),
                dv == deps_view(deps@),
                cur@.len() == n,
                present@.len() == n,
                h <= n,
                forall|y: usize| order@.contains(y) <==> before.contains(y) || y == f,
                forall|g: int, x: usize|
                    0 <= g < h && present@[g] ==> (#[trigger] cur@[g]@.contains(x) <==> dv[g].contains(x)
                        && !order@.contains(x)),
                forall|g: int, x: usize|
                    h <= g < n && present@[g] ==> (#[trigger] cur@[g]@.contains(x) <==> dv[g].contains(x)
                        && !before.contains(x)),
            decreases n - h,
        {
            let updated = without(&cur[h], f);
            cur.set(h, updated);
            h = h + 1;
        }
    }
    proof {
        assert forall|h: usize| h < dv.len() implies #[trigger] order@.contains(h) by {
            lemma_count_true_zero(present@, n as nat, h as int);
        }
    }
    Ok(order)
}

proof fn lemma_count_true_all_false(flags: Seq<bool>, n: nat)
    requires
        n <= flags.len(),
        forall|h: int| 0 <= h < n ==> !#[trigger] flags[h],
    ensures
        count_true(flags, n) == 0,
    decreases n,
{
    if n > 0 {
        lemma_count_true_all_false(flags, (n - 1) as nat);
    }
}


/// The nodes that scanning node `n` pushes on the work stack, in order: `n`, then, unless `n`
/// is a call, what scanning each of its operands pushes.
pub open spec fn scan(g: Seq<Op>, n: nat) -> Seq<NodeId>
    decreases n, 1nat, 0nat,
{
    if n >= g.len() || g[n as int] is Call {
        seq![n as usize]
    } else {
        seq![n as usize] + scan_all(g, operands(g[n as int]), n)
    }
}

/// What scanning the nodes `ids` below `bound` pushes, one after the other.
pub open spec fn scan_all(g: Seq<Op>, ids: Seq<NodeId>, bound: nat) -> Seq<NodeId>
    decreases bound, 0nat, ids.len(),
{
    if ids.len() == 0 {
        Seq::empty()
    } else {
        scan_all(g, ids.drop_last(), bound) + if ids.last() < bound {
            scan(g, ids.last() as nat)
        } else {
            Seq::empty()
        }
    }
}

/// What inlining one call needs: the nodes of the callee's body, the call's arguments, whether
/// the callee is a function (rather than an evaluator), and, for an evaluator, the number of
/// its parameters in each trace segment.
pub struct CallInliningContext {
    pub body: Vec<NodeId>,
    pub arguments: Vec<NodeId>,
    pub pure_function: bool,
    pub evaluator_params: Vec<usize>,
}

/// The second inlining pass: it copies the bodies of callees at their call sites.
pub struct InliningSecondPass {
    pub work_stack: Vec<NodeId>,
    pub call_inlining_context: Option<CallInliningContext>,
    pub nodes_to_replace: HashMap<NodeId, NodeId>,
}

/// The trees that replace the parameters of the callee in the context: the arguments of a
/// function, the single-column arguments of an evaluator.
pub open spec fn parameter_trees(g: Seq<Op>, ctx: CallInliningContext) -> Seq<Term> {
    if ctx.pure_function {
        param_terms(g, ctx.arguments@)
    } else {
        unpacked_args(g, ctx.arguments@)
    }
}

/// Node `node` can be copied with `n` parameter replacements: a parameter has one, and each
/// operand is a key of the map.
pub open spec fn keys_with(g: &Graph, m: Map<NodeId, NodeId>, node: NodeId, n: nat) -> bool {
    &&& g.wf()
    &&& node < g@.len()
    &&& (g@[node as int] matches Op::Parameter(p, _) ==> p < n)
    &&& forall|k: int|
        0 <= k < operands(g@[node as int]).len() ==> key_in(
            g@,
            m,
            #[trigger] operands(g@[node as int])[k],
        )
}

/// Node `node` can be copied with the parameters replaced by `ps`: a parameter has a
/// replacement, and each operand has already been copied.
pub open spec fn ready_with(g: &Graph, m: Map<NodeId, NodeId>, node: NodeId, ps: Seq<Term>) -> bool {
    &&& g.wf()
    &&& node < g@.len()
    &&& (g@[node as int] matches Op::Parameter(p, _) ==> p < ps.len())
    &&& forall|k: int|
        0 <= k < operands(g@[node as int]).len() ==> has_copy(
            g@,
            m,
            #[trigger] operands(g@[node as int])[k],
            ps,
        )
}

impl InliningSecondPass {
    /// Pushes `node` on the work stack, then, unless it is a call, its operands, recursively.
    pub fn scan_node(&mut self, g: &Graph, node: NodeId)
        requires
            g.wf(),
            node < g@.len(),
        ensures
            final(self).work_stack@ == old(self).work_stack@ + scan(g@, node as nat),
            final(self).call_inlining_context == old(self).call_inlining_context,
            final(self).nodes_to_replace@ == old(self).nodes_to_replace@,
        decreases node,
    {
        let ghost before = self.work_stack@;
        self.work_stack.push(node);
        if let Op::Call(..) = &g.nodes[node] {
            return;
        }
        let children = crate::mir::visitor::get_children(g, node);
        proof {
            assert(crate::mir::graph::operands_below(g@[node as int], node as nat));
            crate::mir::visitor::lemma_operands_below(g@[node as int], node as nat);
        }
        let mut k: usize = 0;
        while k < children.len()
            invariant
                g.wf(),
                node < g@.len(),
                !(g@[node as int] is Call),
                children@ == operands(g@[node as int]),
                all_below(children@, node as nat),
                k <= children@.len(),
                self.work_stack@ == before + seq![node] + scan_all(
                    g@,
                    children@.subrange(0, k as int),
                    node as nat,
                ),
                self.call_inlining_context == old(self).call_inlining_context,
                self.nodes_to_replace@ == old(self).nodes_to_replace@,
            decreases children@.len() - k,
        {
            let c = children[k];
            self.scan_node(g, c);
            proof {
                assert(children@.subrange(0, k + 1).drop_last() =~= children@.subrange(0, k as int));
                assert(children@.subrange(0, k + 1).last() == c);
            }
            k = k + 1;
        }
        proof {
            assert(children@.subrange(0, k as int) =~= children@);
        }
    }
}

impl InliningSecondPass {
    /// At a call inside a body being inlined: pushes what the call will be replaced by, the
    /// result of a function or every node of an evaluator's body.
    pub fn visit_call(&mut self, g: &Graph, call: NodeId)
        requires
            g.wf(),
            old(self).call_inlining_context matches Some(ctx) && all_below(ctx.body@, g@.len()) && (
            ctx.pure_function ==> ctx.body@.len() > 0),
        ensures
            final(self).work_stack@ == old(self).work_stack@ + ({
                let ctx = old(self).call_inlining_context.unwrap();
                if ctx.pure_function {
                    scan(g@, ctx.body@.last() as nat)
                } else {
                    scan_all(g@, ctx.body@, g@.len())
                }
            }),
            final(self).call_inlining_context == old(self).call_inlining_context,
            final(self).nodes_to_replace@ == old(self).nodes_to_replace@,
    {
        let (pure_function, body) = match &self.call_inlining_context {
            Some(ctx) => (ctx.pure_function, crate::mir::graph::copy_ids(&ctx.body)),
            None => (true, Vec::new()),
        };
        if pure_function {
            let last = body[body.len() - 1];
            self.scan_node(g, last);
        } else {
            let ghost before = self.work_stack@;
            let mut k: usize = 0;
            while k < body.len()
                invariant
                    g.wf(),
                    all_below(body@, g@.len()),
                    k <= body@.len(),
                    self.work_stack@ == before + scan_all(g@, body@.subrange(0, k as int), g@.len()),
                    self.call_inlining_context == old(self).call_inlining_context,
                    self.nodes_to_replace@ == old(self).nodes_to_replace@,
                decreases body@.len() - k,
            {
                let b = body[k];
                self.scan_node(g, b);
                proof {
                    assert(body@.subrange(0, k + 1).drop_last() =~= body@.subrange(0, k as int));
                    assert(body@.subrange(0, k + 1).last() == b);
                }
                k = k + 1;
            }
            proof {
                assert(body@.subrange(0, k as int) =~= body@);
            }
        }
    }

    /// Visits a node of the body being inlined: a call pushes what it will be replaced by;
    /// any other node is copied with the callee's parameters replaced. For an evaluator, the
    /// arguments are first checked against its parameters and split into single columns.
    pub fn visit_node(&mut self, g: &mut Graph, node: NodeId) -> (r: Result<(), CompileError>)
        requires
            old(g).wf(),
            node < old(g)@.len(),
            old(self).call_inlining_context matches Some(ctx) && ({
                if old(g)@[node as int] is Call {
                    all_below(ctx.body@, old(g)@.len()) && (ctx.pure_function ==> ctx.body@.len() > 0)
                } else if ctx.pure_function {
                    keys_ready(old(g), old(self).nodes_to_replace@, node, ctx.arguments@)
                } else {
                    &&& forall|i: int|
                        0 <= i < ctx.arguments@.len() ==> segment_arg_ok(
                            old(g)@,
                            #[trigger] ctx.arguments@[i],
                        )
                    &&& bindings_fit(old(g)@, ctx.arguments@)
                    &&& evaluator_args_ok(old(g)@, ctx.arguments@, ctx.evaluator_params@.len() as int)
                    &&& keys_with(
                        old(g),
                        old(self).nodes_to_replace@,
                        node,
                        unpacked_args(old(g)@, ctx.arguments@).len(),
                    )
                }
            }),
        ensures
            final(self).call_inlining_context == old(self).call_inlining_context,
            ({
                let ctx = old(self).call_inlining_context.unwrap();
                let m0 = old(self).nodes_to_replace@;
                let m1 = final(self).nodes_to_replace@;
                if old(g)@[node as int] is Call {
                    &&& r is Ok
                    &&& *final(g) == *old(g)
                    &&& m1 == m0
                    &&& final(self).work_stack@ == old(self).work_stack@ + if ctx.pure_function {
                        scan(old(g)@, ctx.body@.last() as nat)
                    } else {
                        scan_all(old(g)@, ctx.body@, old(g)@.len())
                    }
                } else if !ctx.pure_function && !evaluator_args_match(
                    old(g)@,
                    ctx.evaluator_params@,
                    ctx.arguments@,
                ) {
                    &&& r == Err::<(), CompileError>(CompileError::Failed)
                    &&& *final(g) == *old(g)
                    &&& m1 == m0
                } else {
                    &&& r is Ok
                    &&& final(g).wf()
                    &&& final(g).extends(old(g))
                    &&& m1 == m0.insert(node, m1[node])
                    &&& m1[node] < final(g)@.len()
                    &&& (ctx.pure_function ==> (old(g)@[node as int] matches Op::Parameter(p, _)
                        ==> m1[node] == ctx.arguments@[p as int] && final(g)@ == old(g)@))
                    &&& (!(old(g)@[node as int] is Parameter) ==> {
                        &&& m1[node] + 1 == final(g)@.len()
                        &&& renamed(final(g)@[m1[node] as int], old(g)@[node as int], m0)
                    })
                    &&& (ready_with(old(g), m0, node, parameter_trees(old(g)@, ctx)) ==> term(
                        final(g)@,
                        m1[node] as nat,
                    ) == subst(term(old(g)@, node as nat), parameter_trees(old(g)@, ctx)))
                    &&& final(self).work_stack@ == old(self).work_stack@
                }
            }),
    {
        let is_call = match &g.nodes[node] {
            Op::Call(..) => true,
            _ => false,
        };
        if is_call {
            self.visit_call(g, node);
            return Ok(());
        }
        let (pure_function, arguments, params) = match &self.call_inlining_context {
            Some(ctx) => (
                ctx.pure_function,
                crate::mir::graph::copy_ids(&ctx.arguments),
                crate::mir::graph::copy_ids(&ctx.evaluator_params),
            ),
            None => (true, Vec::new(), Vec::new()),
        };
        if pure_function {
            duplicate_node_or_replace(&mut self.nodes_to_replace, g, node, &arguments);
        } else {
            let checked = check_evaluator_args(g, &params, &arguments);
            if checked.is_err() {
                return Err(CompileError::Failed);
            }
            let ghost g0 = *g;
            let unpacked = unpack_evaluator_args(g, &arguments);
            proof {
                let ps = unpacked_args(g0@, arguments@);
                assert(param_terms(g@, unpacked@) == ps);
                assert(g@[node as int] == g0@[node as int]) by {
                    assert(g@.subrange(0, g0@.len() as int)[node as int] == g@[node as int]);
                }
                assert forall|k: int| 0 <= k < operands(g@[node as int]).len() implies key_in(
                    g@,
                    self.nodes_to_replace@,
                    #[trigger] operands(g@[node as int])[k],
                ) by {
                    let c = operands(g0@[node as int])[k];
                    assert(key_in(g0@, self.nodes_to_replace@, c));
                }
                if ready_with(&g0, self.nodes_to_replace@, node, ps) {
                    assert forall|k: int| 0 <= k < operands(g@[node as int]).len() implies has_copy(
                        g@,
                        self.nodes_to_replace@,
                        #[trigger] operands(g@[node as int])[k],
                        param_terms(g@, unpacked@),
                    ) by {
                        let c = operands(g0@[node as int])[k];
                        assert(has_copy(g0@, self.nodes_to_replace@, c, ps));
                        assert(crate::mir::graph::operands_below(g0@[node as int], node as nat));
                        crate::mir::visitor::lemma_operands_below(g0@[node as int], node as nat);
                        lemma_term_kept(&g0, g, c as nat);
                        lemma_term_kept(&g0, g, self.nodes_to_replace@[c] as nat);
                    }
                }
                lemma_term_kept(&g0, g, node as nat);
            }
            let ghost g1 = *g;
            duplicate_node_or_replace(&mut self.nodes_to_replace, g, node, &unpacked);
            proof {
                lemma_extends_trans(&g0, &g1, g);
            }
        }
        Ok(())
    }
}

/// The first inlining pass: it records which functions and evaluators each body calls, and
/// where each of them is called.
pub struct InliningFirstPass {
    /// Whether the nodes being visited belong to the body of a function or an evaluator
    pub in_func_or_eval: bool,
    /// The callees met in the body being visited
    pub current_callees_encountered: Vec<usize>,
    /// The callees of each function or evaluator whose body has been visited
    pub func_eval_dependency_graph: HashMap<usize, Vec<usize>>,
    /// The call nodes of each callee
    pub func_eval_nodes_where_called: HashMap<usize, Vec<NodeId>>,
}

impl InliningFirstPass {
    pub fn new() -> (r: InliningFirstPass)
        ensures
            !r.in_func_or_eval,
            r.current_callees_encountered@.len() == 0,
            r.func_eval_dependency_graph@ == Map::<usize, Vec<usize>>::empty(),
            r.func_eval_nodes_where_called@ == Map::<usize, Vec<NodeId>>::empty(),
    {
        InliningFirstPass {
            in_func_or_eval: false,
            current_callees_encountered: Vec::new(),
            func_eval_dependency_graph: HashMap::new(),
            func_eval_nodes_where_called: HashMap::new(),
        }
    }

    /// Records a call: its callee is a dependency of the body being visited, if any, and the
    /// call is one more place where the callee is called.
    pub fn visit_call(&mut self, g: &Graph, call: NodeId)
        requires
            call < g@.len(),
            g@[call as int] is Call,
        ensures
            ({
                let callee = g@[call as int]->Call_0;
                &&& final(self).in_func_or_eval == old(self).in_func_or_eval
                &&& final(self).current_callees_encountered@ == if old(self).in_func_or_eval {
                    old(self).current_callees_encountered@.push(callee)
                } else {
                    old(self).current_callees_encountered@
                }
                &&& final(self).func_eval_dependency_graph@ == old(self).func_eval_dependency_graph@
                &&& final(self).func_eval_nodes_where_called@.dom() == old(
                    self,
                ).func_eval_nodes_where_called@.dom().insert(callee)
                &&& final(self).func_eval_nodes_where_called@[callee]@ == if old(
                    self,
                ).func_eval_nodes_where_called@.contains_key(callee) {
                    old(self).func_eval_nodes_where_called@[callee]@.push(call)
                } else {
                    seq![call]
                }
                &&& forall|f: usize|
                    f != callee && #[trigger] old(self).func_eval_nodes_where_called@.contains_key(f)
                        ==> final(self).func_eval_nodes_where_called@[f] == old(
                        self,
                    ).func_eval_nodes_where_called@[f]
            }),
    {
        let callee = match &g.nodes[call] {
            Op::Call(f, _) => *f,
            _ => 0,
        };
        if self.in_func_or_eval {
            self.current_callees_encountered.push(callee);
        }
        let mut calls = match self.func_eval_nodes_where_called.get(&callee) {
            Some(v) => crate::mir::graph::copy_ids(v),
            None => Vec::new(),
        };
        calls.push(call);
        self.func_eval_nodes_where_called.insert(callee, calls);
    }

    /// Records the callees met in the body of function (or evaluator) `f`, and starts afresh.
    pub fn visit_function(&mut self, f: usize)
        ensures
            final(self).in_func_or_eval == old(self).in_func_or_eval,
            final(self).current_callees_encountered@.len() == 0,
            final(self).func_eval_dependency_graph@.dom() == old(
                self,
            ).func_eval_dependency_graph@.dom().insert(f),
            final(self).func_eval_dependency_graph@[f]@ == old(self).current_callees_encountered@,
            forall|h: usize|
                h != f && #[trigger] old(self).func_eval_dependency_graph@.contains_key(h)
                    ==> final(self).func_eval_dependency_graph@[h] == old(
                    self,
                ).func_eval_dependency_graph@[h],
            final(self).func_eval_nodes_where_called@ == old(self).func_eval_nodes_where_called@,
    {
        let callees = crate::mir::graph::copy_ids(&self.current_callees_encountered);
        self.func_eval_dependency_graph.insert(f, callees);
        self.current_callees_encountered = Vec::new();
    }
}

impl InliningSecondPass {
    pub fn new() -> (r: InliningSecondPass)
        ensures
            r.work_stack@.len() == 0,
            r.call_inlining_context is None,
            r.nodes_to_replace@ == Map::<NodeId, NodeId>::empty(),
    {
        InliningSecondPass {
            work_stack: Vec::new(),
            call_inlining_context: None,
            nodes_to_replace: HashMap::new(),
        }
    }
}

/// The image of `c` in `m`.
fn image_of(m: &HashMap<NodeId, NodeId>, c: NodeId) -> (r: NodeId)
    requires
        m@.contains_key(c),
    ensures
        r == m@[c],
{
    match m.get(&c) {
        Some(r) => *r,
        None => 0,
    }
}

/// What a call is replaced by once inlined: the result of the function with the arguments
/// in place of its parameters, or the vector of the statements of the evaluator's body with
/// the single-column arguments in place of its parameters.
pub open spec fn inlined_call(g: Seq<Op>, ctx: CallInliningContext) -> Term {
    if ctx.pure_function {
        subst(term(g, ctx.body@.last() as nat), param_terms(g, ctx.arguments@))
    } else {
        Term::Vector(
            crate::mir::subst::subst_all(param_terms(g, ctx.body@), unpacked_args(g, ctx.arguments@)),
        )
    }
}

/// What inlining a call with the context `ctx` needs: stored arguments and body, a result for
/// a function, arguments that can be split for an evaluator, and a replacement for every
/// parameter the body refers to.
pub open spec fn context_ok(g: Seq<Op>, ctx: CallInliningContext) -> bool {
    &&& all_below(ctx.arguments@, g.len())
    &&& all_below(ctx.body@, g.len())
    &&& ctx.pure_function ==> ctx.body@.len() > 0 && crate::mir::loops::params_fit(
        g,
        ctx.body@.last() as nat,
        ctx.arguments@.len(),
    )
    &&& !ctx.pure_function ==> {
        &&& forall|i: int|
            0 <= i < ctx.arguments@.len() ==> segment_arg_ok(g, #[trigger] ctx.arguments@[i])
        &&& bindings_fit(g, ctx.arguments@)
        &&& evaluator_args_ok(g, ctx.arguments@, ctx.evaluator_params@.len() as int)
        &&& forall|k: int|
            0 <= k < ctx.body@.len() ==> crate::mir::loops::params_fit(
                g,
                #[trigger] ctx.body@[k] as nat,
                unpacked_args(g, ctx.arguments@).len(),
            )
    }
}

impl InliningSecondPass {
    /// Inlines one call whose callee has the context `ctx`: copies the callee's body with the
    /// arguments in place of the parameters, recording the copies in `nodes_to_replace`, and
    /// gives the node that replaces the call: the copy of the function's result, or a vector
    /// of the copies of the evaluator's body. An evaluator whose arguments do not match its
    /// parameters is an error.
    pub fn inline_call(&mut self, g: &mut Graph, ctx: &CallInliningContext) -> (r: Result<NodeId, CompileError>)
        requires
            old(g).wf(),
            context_ok(old(g)@, *ctx),
        ensures
            final(self).call_inlining_context is None,
            final(g).wf(),
            final(g).extends(old(g)),
            !ctx.pure_function && !evaluator_args_match(old(g)@, ctx.evaluator_params@, ctx.arguments@)
                ==> r == Err::<NodeId, CompileError>(CompileError::Failed),
            ctx.pure_function || evaluator_args_match(old(g)@, ctx.evaluator_params@, ctx.arguments@)
                ==> (r matches Ok(n) && n < final(g)@.len() && term(final(g)@, n as nat)
                == inlined_call(old(g)@, *ctx)),
    {
        let ghost g0 = *g;
        self.call_inlining_context = None;
        self.nodes_to_replace = HashMap::new();
        proof {
            lemma_extends_refl(g);
        }
        if ctx.pure_function {
            let last = ctx.body[ctx.body.len() - 1];
            crate::mir::loops::copy_with(&mut self.nodes_to_replace, g, last, &ctx.arguments);
            let r = image_of(&self.nodes_to_replace, last);
            proof {
                assert(has_copy(g@, self.nodes_to_replace@, last, param_terms(g0@, ctx.arguments@)));
                lemma_term_kept(&g0, g, last as nat);
            }
            return Ok(r);
        }
        let checked = check_evaluator_args(g, &ctx.evaluator_params, &ctx.arguments);
        if checked.is_err() {
            return Err(CompileError::Failed);
        }
        let unpacked = unpack_evaluator_args(g, &ctx.arguments);
        let ghost g1 = *g;
        let ghost ps = unpacked_args(g0@, ctx.arguments@);
        proof {
            lemma_extends_refl(g);
        }
        let mut ids: Vec<NodeId> = Vec::new();
        let mut k: usize = 0;
        while k < ctx.body.len()
            invariant
                g0.wf(),
                g1.extends(&g0),
                g.wf(),
                g.extends(&g1),
                context_ok(g0@, *ctx),
                !ctx.pure_function,
                ps == unpacked_args(g0@, ctx.arguments@),
                self.call_inlining_context is None,
                all_below(unpacked@, g1@.len()),
                param_terms(g1@, unpacked@) == ps,
                k <= ctx.body@.len(),
                ids@.len() == k,
                crate::mir::loops::map_valid(g@, self.nodes_to_replace@, ps),
                forall|c: NodeId| #[trigger] self.nodes_to_replace@.contains_key(c) ==> c < g@.len(),
                forall|j: int| 0 <= j < k ==> (#[trigger] ids@[j]) < g@.len() && term(g@, ids@[j] as nat)
                    == subst(term(g0@, ctx.body@[j] as nat), ps),
            decreases ctx.body@.len() - k,
        {
            let b = ctx.body[k];
            let ghost gk = *g;
            proof {
                lemma_extends_trans(&g0, &g1, g);
                crate::mir::loops::lemma_params_fit_kept(&g0, g, b as nat, ps.len());
                assert(param_terms(g@, unpacked@) =~= ps) by {
                    assert forall|x: int| 0 <= x < unpacked@.len() implies param_terms(g@, unpacked@)[x]
                        == ps[x] by {
                        lemma_term_kept(&g1, g, unpacked@[x] as nat);
                    }
                }
                assert(all_below(unpacked@, g@.len()));
            }
            crate::mir::loops::copy_with(&mut self.nodes_to_replace, g, b, &unpacked);
            let id = image_of(&self.nodes_to_replace, b);
            proof {
                lemma_extends_trans(&g1, &gk, g);
                lemma_extends_trans(&g0, &g1, g);
                assert(has_copy(g@, self.nodes_to_replace@, b, ps));
                lemma_term_kept(&g0, g, b as nat);
                assert forall|j: int| 0 <= j < k implies (#[trigger] ids@[j]) < g@.len() && term(
                    g@,
                    ids@[j] as nat,
                ) == subst(term(g0@, ctx.body@[j] as nat), ps) by {
                    lemma_term_kept(&gk, g, ids@[j] as nat);
                }
            }
            ids.push(id);
            k = k + 1;
        }
        let ghost ids_v = ids@;
        let ghost gv = *g;
        let r = crate::mir::unrolling::mk_vector(g, ids);
        proof {
            lemma_extends_trans(&g0, &g1, &gv);
            lemma_extends_trans(&g0, &gv, g);
            crate::mir::subst::lemma_subst_all_index(param_terms(g0@, ctx.body@), ps);
            assert(param_terms(gv@, ids_v) =~= crate::mir::subst::subst_all(
                param_terms(g0@, ctx.body@),
                ps,
            ));
        }
        Ok(r)
    }
}

} // verus!

