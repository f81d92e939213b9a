//! Lowering of the syntax tree into the constraint graph. Each expression becomes the node
//! whose tree is the lowering of the expression: names resolve to trace columns, random
//! values, public inputs, periodic columns or local bindings; exponentiation by a constant is
//! expanded into multiplications by squaring; list comprehensions become loops.
use vstd::prelude::*;
use crate::ast::{AccessType, RangeExpr, Type};
use crate::mir::graph::{
    all_below, BoundaryKind, CompileError, FoldOperator, Graph, Mir, MirType, MirValue, NodeId, Op,
    TraceAccess, TraceAccessBinding,
};
use crate::mir::term::{term, Term};
use crate::mir::duplicate::{lemma_extends_refl, lemma_extends_trans, lemma_term_kept};
use crate::mir::eval::{eval_at, pow, Env};
use crate::mir::unrolling::constant_matrix_term;
use crate::syntax::{
    expr_typ, BinaryExpr, BinaryOp, Call, Callee, ConstantExpr, EvaluatorFunction, Expr, Function,
    Identifier, Let,
    ListComprehension, Program, RandBinding, RandomValues, ResolvableIdentifier, ScalarExpr, Statement,
    SymbolAccess, TraceBinding, TraceSegment,
};

verus! {

/// What the names of a program refer to, besides its local bindings: the random values, the
/// trace segments, the public inputs and periodic columns (by index), and the functions and
/// evaluators (by index, with whether each is a function; the builder holds them).
pub struct Globals {
    pub random_values: Option<RandomValues>,
    pub trace_columns: Vec<TraceSegment>,
    pub public_inputs: Vec<Identifier>,
    pub periodic_columns: Vec<Identifier>,
    pub callables: Ghost<Seq<(Identifier, bool)>>,
}

/// The outcome of lowering: a tree, a compile error, or an input on which lowering is not
/// defined (the tree is not what semantic analysis produces).
pub enum Lowering<T> {
    Done(T),
    Failed,
    Undefined,
}

/// The outcome of looking a name up: found, absent, or not defined for this access.
pub enum Resolution<T> {
    Found(T),
    Absent,
    Undefined,
}

/// The outcome of a failed lowering, for another kind of result.
pub open spec fn undone<A, B>(o: Lowering<A>) -> Lowering<B> {
    match o {
        Lowering::Failed => Lowering::Failed,
        _ => Lowering::Undefined,
    }
}

/// The first index from `k` on at which `p` holds.
pub open spec fn find_from<T>(s: Seq<T>, p: spec_fn(T) -> bool, k: int) -> Option<int>
    decreases s.len() - k,
{
    if k < 0 || k >= s.len() {
        None
    } else if p(s[k]) {
        Some(k)
    } else {
        find_from(s, p, k + 1)
    }
}

/// A random values binding of the name.
pub open spec fn rand_named(id: Identifier) -> spec_fn(RandBinding) -> bool {
    |b: RandBinding| b.name == id
}

/// A trace binding of the name.
pub open spec fn trace_named(id: Identifier) -> spec_fn(TraceBinding) -> bool {
    |b: TraceBinding| b.name == Some(id)
}

/// The name itself.
pub open spec fn is_name(id: Identifier) -> spec_fn(Identifier) -> bool {
    |x: Identifier| x == id
}

/// The function (or evaluator) of the name.
pub open spec fn callable_named(f: Identifier, function: bool) -> spec_fn((Identifier, bool)) -> bool {
    |x: (Identifier, bool)| x == (f, function)
}

pub open spec fn leaf(v: MirValue) -> Term {
    crate::mir::term::value_term(v)
}

/// The random value an access denotes: an element of the random values array, or of a
/// binding into it.
pub open spec fn random_value(c: Globals, a: SymbolAccess) -> Resolution<usize> {
    let id = a.name.id();
    match c.random_values {
        None => Resolution::Absent,
        Some(rv) => if rv.name == id {
            match a.access_type {
                AccessType::Index(i) => if i < rv.size {
                    Resolution::Found(i)
                } else {
                    Resolution::Undefined
                },
                _ => Resolution::Undefined,
            }
        } else {
            match find_from(rv.bindings@, rand_named(id), 0) {
                None => Resolution::Absent,
                Some(k) => {
                    let b = rv.bindings@[k];
                    match a.access_type {
                        AccessType::Default => if b.size == 1 {
                            Resolution::Found(b.offset)
                        } else {
                            Resolution::Undefined
                        },
                        AccessType::Index(extra) => if b.size > 1 && b.offset + extra
                            <= usize::MAX {
                            Resolution::Found((b.offset + extra) as usize)
                        } else {
                            Resolution::Undefined
                        },
                        _ => Resolution::Undefined,
                    }
                },
            }
        },
    }
}

/// The element of a public input an access denotes.
pub open spec fn public_input(c: Globals, a: SymbolAccess) -> Resolution<(usize, usize)> {
    match find_from(c.public_inputs@, is_name(a.name.id()), 0) {
        None => Resolution::Absent,
        Some(p) => match a.access_type {
            AccessType::Index(i) => Resolution::Found((p as usize, i)),
            _ => Resolution::Undefined,
        },
    }
}

/// The group of columns an access denotes, looking at the segments from `i` on: the first
/// segment with a binding of the name decides.
pub open spec fn trace_binding_from(segs: Seq<TraceSegment>, a: SymbolAccess, i: int) -> Option<
    TraceAccessBinding,
>
    decreases segs.len() - i,
{
    if i < 0 || i >= segs.len() {
        None
    } else {
        match find_from(segs[i].bindings@, trace_named(a.name.id()), 0) {
            Some(k) => {
                let b = segs[i].bindings@[k];
                match a.access_type {
                    AccessType::Default => Some(
                        TraceAccessBinding { segment: b.segment, offset: b.offset, size: b.size },
                    ),
                    AccessType::Slice(r) => Some(
                        TraceAccessBinding {
                            segment: b.segment,
                            offset: b.offset,
                            size: r.spec_len() as usize,
                        },
                    ),
                    _ => None,
                }
            },
            None => trace_binding_from(segs, a, i + 1),
        }
    }
}

/// The single trace column an access denotes, looking at the segments from `i` on: a column
/// of a segment by its name, or a binding of one column, or one column of a wider binding.
pub open spec fn trace_access_from(segs: Seq<TraceSegment>, a: SymbolAccess, i: int) -> Resolution<
    TraceAccess,
>
    decreases segs.len() - i,
{
    if i < 0 || i >= segs.len() {
        Resolution::Absent
    } else if segs[i].name == a.name.id() {
        match a.access_type {
            AccessType::Index(col) => Resolution::Found(
                TraceAccess { segment: i as usize, column: col, row_offset: a.offset },
            ),
            _ => Resolution::Undefined,
        }
    } else {
        match find_from(segs[i].bindings@, trace_named(a.name.id()), 0) {
            Some(k) => {
                let b = segs[i].bindings@[k];
                match a.access_type {
                    AccessType::Default => if b.size == 1 {
                        Resolution::Found(
                            TraceAccess { segment: b.segment, column: b.offset, row_offset: a.offset },
                        )
                    } else {
                        Resolution::Undefined
                    },
                    AccessType::Index(extra) => if b.size > 1 && b.offset + extra <= usize::MAX {
                        Resolution::Found(
                            TraceAccess {
                                segment: b.segment,
                                column: (b.offset + extra) as usize,
                                row_offset: a.offset,
                            },
                        )
                    } else {
                        Resolution::Undefined
                    },
                    _ => Resolution::Undefined,
                }
            },
            None => trace_access_from(segs, a, i + 1),
        }
    }
}

/// The tree bound to a name in the scope: the latest binding wins.
pub open spec fn scope_get(s: Seq<(Identifier, Term)>, id: Identifier) -> Option<Term>
    decreases s.len(),
{
    if s.len() == 0 {
        None
    } else if s.last().0 == id {
        Some(s.last().1)
    } else {
        scope_get(s.drop_last(), id)
    }
}

/// The node bound to `id` by the last binding of it in `bs`.
pub open spec fn bound_node(bs: Seq<(Identifier, NodeId)>, id: Identifier) -> Option<NodeId>
    decreases bs.len(),
{
    if bs.len() == 0 {
        None
    } else if bs.last().0 == id {
        Some(bs.last().1)
    } else {
        bound_node(bs.drop_last(), id)
    }
}

/// What an access to a name denotes. A name resolved to another module is a periodic column.
/// A special name is a random value or trace columns; another name is, in this order, trace
/// columns, a random value, a public input, or an access into a local binding.
pub open spec fn resolve_access(c: Globals, s: Seq<(Identifier, Term)>, a: SymbolAccess) -> Lowering<
    Term,
> {
    let id = a.name.id();
    let segs = c.trace_columns@;
    match a.name {
        ResolvableIdentifier::Resolved(q) => match find_from(c.periodic_columns@, is_name(q), 0) {
            Some(i) => Lowering::Done(leaf(MirValue::PeriodicColumn(i as usize))),
            None => Lowering::Undefined,
        },
        _ => if id.special {
            match random_value(c, a) {
                Resolution::Found(i) => Lowering::Done(leaf(MirValue::RandomValue(i))),
                Resolution::Undefined => Lowering::Undefined,
                Resolution::Absent => match trace_binding_from(segs, a, 0) {
                    Some(b) => Lowering::Done(leaf(MirValue::TraceAccessBinding(b))),
                    None => match trace_access_from(segs, a, 0) {
                        Resolution::Found(t) => Lowering::Done(leaf(MirValue::TraceAccess(t))),
                        _ => Lowering::Undefined,
                    },
                },
            }
        } else {
            match trace_binding_from(segs, a, 0) {
                Some(b) => Lowering::Done(leaf(MirValue::TraceAccessBinding(b))),
                None => match trace_access_from(segs, a, 0) {
                    Resolution::Found(t) => Lowering::Done(leaf(MirValue::TraceAccess(t))),
                    Resolution::Undefined => Lowering::Undefined,
                    Resolution::Absent => match random_value(c, a) {
                        Resolution::Found(i) => Lowering::Done(leaf(MirValue::RandomValue(i))),
                        Resolution::Undefined => Lowering::Undefined,
                        Resolution::Absent => match public_input(c, a) {
                            Resolution::Found((p, i)) => Lowering::Done(
                                leaf(MirValue::PublicInput(p, i)),
                            ),
                            Resolution::Undefined => Lowering::Undefined,
                            Resolution::Absent => match scope_get(s, id) {
                                Some(t) => Lowering::Done(
                                    Term::Accessor(Box::new(t), a.access_type, 0),
                                ),
                                None => Lowering::Undefined,
                            },
                        },
                    },
                },
            }
        },
    }
}

/// `t` to the power `n`, by squaring: `t * t` to the power `n / 2`, times `t` when `n` is odd.
pub open spec fn exp_tree(t: Term, n: nat) -> Term
    decreases n,
{
    if n == 0 {
        leaf(MirValue::Constant(1))
    } else if n == 1 {
        t
    } else if n % 2 == 0 {
        exp_tree(Term::Mul(Box::new(t), Box::new(t)), n / 2)
    } else {
        Term::Mul(Box::new(t), Box::new(exp_tree(Term::Mul(Box::new(t), Box::new(t)), ((n - 1) / 2) as nat)))
    }
}

/// The tree of a binary operation other than exponentiation; equality enforces the
/// difference to be zero.
pub open spec fn binary_term(op: BinaryOp, l: Term, r: Term) -> Term {
    match op {
        BinaryOp::Add => Term::Add(Box::new(l), Box::new(r)),
        BinaryOp::Sub => Term::Sub(Box::new(l), Box::new(r)),
        BinaryOp::Mul => Term::Mul(Box::new(l), Box::new(r)),
        BinaryOp::Eq => Term::Enf(Box::new(Term::Sub(Box::new(l), Box::new(r)))),
        BinaryOp::Exp => Term::Invalid,
    }
}

/// A constant: a scalar, or a vector or matrix of scalars, each stored as one value.
pub open spec fn const_term(c: ConstantExpr) -> Term {
    match c {
        ConstantExpr::Scalar(v) => leaf(MirValue::Constant(v)),
        ConstantExpr::Vector(v) => Term::ConstVector(v@),
        ConstantExpr::Matrix(m) => Term::ConstMatrix(m@.map_values(|r: Vec<u64>| r@)),
    }
}

/// The numbers of a range, as one constant vector.
pub open spec fn range_term(r: RangeExpr) -> Term {
    Term::ConstVector(Seq::new(r.spec_len(), |i: int| (r.start + i) as u64))
}

/// The scope of a comprehension's body: its bindings are its parameters, in order.
pub open spec fn bound_params(bs: Seq<Identifier>) -> Seq<(Identifier, Term)> {
    Seq::new(bs.len(), |k: int| (bs[k], Term::Parameter(k as usize, MirType::Felt)))
}

/// The lowering of a scalar expression.
pub open spec fn lower_scalar(c: Globals, s: Seq<(Identifier, Term)>, e: ScalarExpr) -> Lowering<
    Term,
>
    decreases e,
{
    match e {
        ScalarExpr::Const(v) => Lowering::Done(leaf(MirValue::Constant(v))),
        ScalarExpr::SymbolAccess(a) => resolve_access(c, s, a),
        ScalarExpr::BoundedSymbolAccess(a, k) => match resolve_access(c, s, a) {
            Lowering::Done(t) => Lowering::Done(Term::Boundary(k, Box::new(t))),
            o => o,
        },
        ScalarExpr::Binary(b) => lower_binary(c, s, b),
        ScalarExpr::Call(call) => lower_scalar_call(c, s, call),
        ScalarExpr::Let(l) => lower_let(c, s, *l),
    }
}

/// The lowering of an expression that converts to a scalar expression.
pub open spec fn lower_as_scalar(c: Globals, s: Seq<(Identifier, Term)>, e: Expr) -> Lowering<Term>
    decreases e,
{
    match e {
        Expr::Const(ConstantExpr::Scalar(v)) => Lowering::Done(leaf(MirValue::Constant(v))),
        Expr::SymbolAccess(a) => resolve_access(c, s, a),
        Expr::Binary(b) => lower_binary(c, s, b),
        Expr::Call(call) => lower_scalar_call(c, s, call),
        Expr::Let(l) => lower_let(c, s, *l),
        _ => Lowering::Undefined,
    }
}

/// The lowering of a binary expression: an exponent must be a constant.
pub open spec fn lower_binary(c: Globals, s: Seq<(Identifier, Term)>, b: BinaryExpr) -> Lowering<
    Term,
>
    decreases b,
{
    match lower_scalar(c, s, *b.lhs) {
        Lowering::Done(l) => if b.op == BinaryOp::Exp {
            match *b.rhs {
                ScalarExpr::Const(n) => Lowering::Done(exp_tree(l, n as nat)),
                _ => Lowering::Failed,
            }
        } else {
            match lower_scalar(c, s, *b.rhs) {
                Lowering::Done(r) => Lowering::Done(binary_term(b.op, l, r)),
                o => o,
            }
        },
        o => o,
    }
}

/// The lowering of the arguments of a call; `None` when one does not lower.
pub open spec fn lower_args(c: Globals, s: Seq<(Identifier, Term)>, es: Seq<Expr>) -> Option<
    Seq<Term>,
>
    decreases es,
{
    if es.len() == 0 {
        Some(Seq::empty())
    } else {
        match lower_args(c, s, es.drop_last()) {
            Some(ts) => match lower_expr(c, s, es.last()) {
                Lowering::Done(t) => Some(ts.push(t)),
                _ => None,
            },
            None => None,
        }
    }
}

/// The lowering of the arguments of an evaluator: each a vector.
pub open spec fn lower_eval_args(c: Globals, s: Seq<(Identifier, Term)>, es: Seq<Expr>) -> Option<
    Seq<Term>,
>
    decreases es,
{
    if es.len() == 0 {
        Some(Seq::empty())
    } else {
        match lower_eval_args(c, s, es.drop_last()) {
            Some(ts) => match es.last() {
                Expr::Vector(v) => match lower_args(c, s, v@) {
                    Some(elems) => Some(ts.push(Term::Vector(elems))),
                    None => None,
                },
                _ => None,
            },
            None => None,
        }
    }
}

/// The lowering of `sum` or `prod`: a fold of the single argument from `init`.
pub open spec fn lower_builtin(
    c: Globals,
    s: Seq<(Identifier, Term)>,
    args: Seq<Expr>,
    op: FoldOperator,
    init: u64,
) -> Lowering<Term>
    decreases args,
{
    if args.len() != 1 {
        Lowering::Undefined
    } else {
        match lower_expr(c, s, args[0]) {
            Lowering::Done(t) => Lowering::Done(
                Term::Fold(Box::new(t), op, Box::new(leaf(MirValue::Constant(init)))),
            ),
            _ => Lowering::Undefined,
        }
    }
}

/// The index of the function (or evaluator) with a name.
pub open spec fn callable_index(c: Globals, f: Identifier, function: bool) -> Option<int> {
    find_from(c.callables@, callable_named(f, function), 0)
}

/// The lowering of a call in a scalar position: a builtin, a function, or an evaluator.
pub open spec fn lower_scalar_call(c: Globals, s: Seq<(Identifier, Term)>, call: Call) -> Lowering<
    Term,
>
    decreases call,
{
    match call.callee {
        Callee::Sum => lower_builtin(c, s, call.args@, FoldOperator::Add, 0),
        Callee::Prod => lower_builtin(c, s, call.args@, FoldOperator::Mul, 1),
        Callee::Named(f) => match callable_index(c, f, true) {
            Some(k) => match lower_args(c, s, call.args@) {
                Some(ts) => Lowering::Done(Term::Call(k as usize, ts)),
                None => Lowering::Undefined,
            },
            None => match lower_eval_args(c, s, call.args@) {
                Some(ts) => match callable_index(c, f, false) {
                    Some(k) => Lowering::Done(Term::Call(k as usize, ts)),
                    None => Lowering::Undefined,
                },
                None => Lowering::Undefined,
            },
        },
    }
}

/// The lowering of a call in any other position: a builtin or a function.
pub open spec fn lower_expr_call(c: Globals, s: Seq<(Identifier, Term)>, call: Call) -> Lowering<
    Term,
>
    decreases call,
{
    match call.callee {
        Callee::Sum => lower_builtin(c, s, call.args@, FoldOperator::Add, 0),
        Callee::Prod => lower_builtin(c, s, call.args@, FoldOperator::Mul, 1),
        Callee::Named(f) => match lower_args(c, s, call.args@) {
            Some(ts) => match callable_index(c, f, true) {
                Some(k) => Lowering::Done(Term::Call(k as usize, ts)),
                None => Lowering::Undefined,
            },
            None => Lowering::Undefined,
        },
    }
}

/// The lowering of a `let`: its value is bound to its name for the statement it ends with,
/// which gives the value of the whole.
pub open spec fn lower_let(c: Globals, s: Seq<(Identifier, Term)>, l: Let) -> Lowering<Term>
    decreases l,
{
    match lower_expr(c, s, l.value) {
        Lowering::Done(v) => {
            let inner = s.push((l.name, v));
            if l.body@.len() == 0 {
                Lowering::Undefined
            } else {
                match l.body@.last() {
                    Statement::Let(next) => lower_let(c, inner, next),
                    Statement::Expr(e) => lower_expr(c, inner, e),
                    _ => Lowering::Undefined,
                }
            }
        },
        o => o,
    }
}

/// The lowering of expressions that convert to scalar expressions.
pub open spec fn lower_scalar_elems(c: Globals, s: Seq<(Identifier, Term)>, es: Seq<Expr>) -> Lowering<
    Seq<Term>,
>
    decreases es,
{
    if es.len() == 0 {
        Lowering::Done(Seq::empty())
    } else {
        match lower_scalar_elems(c, s, es.drop_last()) {
            Lowering::Done(ts) => match lower_as_scalar(c, s, es.last()) {
                Lowering::Done(t) => Lowering::Done(ts.push(t)),
                o => undone(o),
            },
            o => o,
        }
    }
}

/// The lowering of scalar expressions.
pub open spec fn lower_scalars(c: Globals, s: Seq<(Identifier, Term)>, es: Seq<ScalarExpr>) -> Lowering<
    Seq<Term>,
>
    decreases es,
{
    if es.len() == 0 {
        Lowering::Done(Seq::empty())
    } else {
        match lower_scalars(c, s, es.drop_last()) {
            Lowering::Done(ts) => match lower_scalar(c, s, es.last()) {
                Lowering::Done(t) => Lowering::Done(ts.push(t)),
                o => undone(o),
            },
            o => o,
        }
    }
}

/// The lowering of the rows of a matrix, each a vector.
pub open spec fn lower_matrix(c: Globals, s: Seq<(Identifier, Term)>, rows: Seq<Vec<ScalarExpr>>) -> Lowering<
    Seq<Term>,
>
    decreases rows,
{
    if rows.len() == 0 {
        Lowering::Done(Seq::empty())
    } else {
        match lower_matrix(c, s, rows.drop_last()) {
            Lowering::Done(ts) => match lower_scalars(c, s, rows.last()@) {
                Lowering::Done(t) => Lowering::Done(ts.push(Term::Vector(t))),
                o => undone(o),
            },
            o => o,
        }
    }
}

/// The columns of a vector given by an access: its first `n` elements, each the access one
/// step further (for an access by index, always the same step).
pub open spec fn lower_columns(c: Globals, s: Seq<(Identifier, Term)>, a: SymbolAccess, n: nat) -> Lowering<
    Seq<Term>,
>
    decreases n,
{
    if n == 0 {
        Lowering::Done(Seq::empty())
    } else {
        match lower_columns(c, s, a, (n - 1) as nat) {
            Lowering::Done(cols) => {
                let step = match a.access_type {
                    AccessType::Index(j) => Some(AccessType::Index(j)),
                    AccessType::Default => Some(AccessType::Index((n - 1) as usize)),
                    _ => None,
                };
                match step {
                    Some(st) => match a.spec_access(st) {
                        Some(a2) => match resolve_access(c, s, a2) {
                            Lowering::Done(t) => Lowering::Done(cols.push(t)),
                            o => undone(o),
                        },
                        None => Lowering::Undefined,
                    },
                    None => Lowering::Undefined,
                }
            },
            o => o,
        }
    }
}

/// The lowering of the rows of a vector of vectors of `n` elements: a constant row is that
/// constant; an access gives its `n` columns; a vector gives its elements.
pub open spec fn lower_rows(c: Globals, s: Seq<(Identifier, Term)>, es: Seq<Expr>, n: usize) -> Lowering<
    Seq<Term>,
>
    decreases es,
{
    if es.len() == 0 {
        Lowering::Done(Seq::empty())
    } else {
        match lower_rows(c, s, es.drop_last(), n) {
            Lowering::Done(rows) => match es.last() {
                Expr::Const(ce) => Lowering::Done(rows.push(const_term(ce))),
                Expr::SymbolAccess(a) => match lower_columns(c, s, a, n as nat) {
                    Lowering::Done(cols) => Lowering::Done(rows.push(Term::Vector(cols))),
                    o => undone(o),
                },
                Expr::Vector(elems) => match lower_scalar_elems(c, s, elems@) {
                    Lowering::Done(cols) => Lowering::Done(rows.push(Term::Vector(cols))),
                    o => undone(o),
                },
                _ => Lowering::Undefined,
            },
            o => o,
        }
    }
}

/// The lowering of the iterables of a comprehension: each must be a vector.
pub open spec fn lower_iterables(c: Globals, s: Seq<(Identifier, Term)>, es: Seq<Expr>) -> Lowering<
    Seq<Term>,
>
    decreases es,
{
    if es.len() == 0 {
        Lowering::Done(Seq::empty())
    } else {
        match lower_iterables(c, s, es.drop_last()) {
            Lowering::Done(ts) => match lower_expr(c, s, es.last()) {
                Lowering::Done(t) => if t is Vector {
                    Lowering::Done(ts.push(t))
                } else {
                    Lowering::Failed
                },
                o => undone(o),
            },
            o => o,
        }
    }
}

/// The lowering of a comprehension: a loop over its iterables, its bindings being the
/// parameters of its body and selector.
pub open spec fn lower_comprehension(
    c: Globals,
    s: Seq<(Identifier, Term)>,
    lc: ListComprehension,
) -> Lowering<Term>
    decreases lc,
{
    let inner = s + bound_params(lc.bindings@);
    match lower_iterables(c, inner, lc.iterables@) {
        Lowering::Done(its) => match lc.selector {
            Some(sel) => match lower_scalar(c, inner, sel) {
                Lowering::Done(st) => match lower_scalar(c, inner, *lc.body) {
                    Lowering::Done(bt) => Lowering::Done(
                        Term::For(its, Box::new(bt), Some(Box::new(st))),
                    ),
                    o => o,
                },
                o => o,
            },
            None => match lower_scalar(c, inner, *lc.body) {
                Lowering::Done(bt) => Lowering::Done(Term::For(its, Box::new(bt), None)),
                o => o,
            },
        },
        o => undone(o),
    }
}

/// The lowering of an expression.
pub open spec fn lower_expr(c: Globals, s: Seq<(Identifier, Term)>, e: Expr) -> Lowering<Term>
    decreases e,
{
    match e {
        Expr::Const(ce) => Lowering::Done(const_term(ce)),
        Expr::Range(r) => Lowering::Done(range_term(r)),
        Expr::Vector(es) => if es@.len() == 0 {
            Lowering::Done(Term::ConstVector(Seq::empty()))
        } else {
            match expr_typ(es@[0]) {
                Some(Type::Scalar(_)) => match lower_scalar_elems(c, s, es@) {
                    Lowering::Done(ts) => Lowering::Done(Term::Vector(ts)),
                    o => undone(o),
                },
                Some(Type::Vector(_, n)) => match lower_rows(c, s, es@, n) {
                    Lowering::Done(rows) => Lowering::Done(Term::Matrix(rows)),
                    o => undone(o),
                },
                _ => Lowering::Undefined,
            }
        },
        Expr::Matrix(rows) => match lower_matrix(c, s, rows@) {
            Lowering::Done(ts) => Lowering::Done(Term::Matrix(ts)),
            o => undone(o),
        },
        Expr::SymbolAccess(a) => match scope_get(s, a.name.id()) {
            Some(t) => Lowering::Done(t),
            None => resolve_access(c, s, a),
        },
        Expr::Binary(b) => lower_binary(c, s, b),
        Expr::Call(call) => lower_expr_call(c, s, call),
        Expr::ListComprehension(lc) => lower_comprehension(c, s, lc),
        Expr::Let(l) => lower_let(c, s, *l),
    }
}

/// Where a statement stands: in the body of a function or of an evaluator (the nodes of the
/// body so far), or among the constraints of the program.
pub enum Owner {
    Function(Vec<NodeId>),
    Evaluator(Vec<NodeId>),
    Constraints,
}

impl Owner {
    pub open spec fn in_body(self) -> bool {
        !(self is Constraints)
    }

    pub open spec fn body(self) -> Seq<NodeId> {
        match self {
            Owner::Function(b) => b@,
            Owner::Evaluator(b) => b@,
            Owner::Constraints => Seq::empty(),
        }
    }
}

/// What statements add: nodes to the body they stand in, and roots of boundary and of
/// integrity constraints, each given by its tree.
pub struct Effects {
    pub body: Seq<Term>,
    pub boundary: Seq<Term>,
    pub integrity: Seq<Term>,
}

pub open spec fn no_effects() -> Effects {
    Effects { body: Seq::empty(), boundary: Seq::empty(), integrity: Seq::empty() }
}

/// The effects of one statement and then another.
pub open spec fn then(a: Effects, b: Effects) -> Effects {
    Effects {
        body: a.body + b.body,
        boundary: a.boundary + b.boundary,
        integrity: a.integrity + b.integrity,
    }
}

/// An enforcement of a tree: the tree itself when it already is one.
pub open spec fn enforced(t: Term) -> Term {
    if t is Enf {
        t
    } else {
        Term::Enf(Box::new(t))
    }
}

/// The effects of a statement, in a body or among the constraints, in the boundary
/// constraints or not. A `let` binds its value for the statements of its body; an expression
/// is added to the body; an enforcement goes to the boundary constraints, or else to the body;
/// an enforcement over a comprehension is a loop, which outside the boundary constraints is
/// both added to the body and made a root of the integrity constraints.
pub open spec fn lower_statement(
    c: Globals,
    s: Seq<(Identifier, Term)>,
    stmt: Statement,
    in_body: bool,
    in_boundary: bool,
) -> Lowering<Effects>
    decreases stmt,
{
    match stmt {
        Statement::Let(l) => match lower_expr(c, s, l.value) {
            Lowering::Done(v) => lower_statements(c, s.push((l.name, v)), l.body@, in_body, in_boundary),
            o => undone(o),
        },
        Statement::Expr(e) => match lower_expr(c, s, e) {
            Lowering::Done(t) => if in_body {
                Lowering::Done(Effects { body: seq![t], ..no_effects() })
            } else {
                Lowering::Undefined
            },
            o => undone(o),
        },
        Statement::Enforce(e) => match lower_scalar(c, s, e) {
            Lowering::Done(t) => if in_boundary {
                Lowering::Done(Effects { boundary: seq![enforced(t)], ..no_effects() })
            } else if in_body {
                Lowering::Done(Effects { body: seq![enforced(t)], ..no_effects() })
            } else {
                Lowering::Undefined
            },
            o => undone(o),
        },
        Statement::EnforceAll(lc) => match lower_comprehension(c, s, lc) {
            Lowering::Done(t) => {
                let e = Term::Enf(Box::new(t));
                if in_boundary {
                    Lowering::Done(Effects { boundary: seq![e], ..no_effects() })
                } else if in_body {
                    Lowering::Done(Effects { body: seq![e], boundary: Seq::empty(), integrity: seq![e] })
                } else {
                    Lowering::Undefined
                }
            },
            o => undone(o),
        },
    }
}

/// The effects of statements, one after the other.
pub open spec fn lower_statements(
    c: Globals,
    s: Seq<(Identifier, Term)>,
    stmts: Seq<Statement>,
    in_body: bool,
    in_boundary: bool,
) -> Lowering<Effects>
    decreases stmts,
{
    if stmts.len() == 0 {
        Lowering::Done(no_effects())
    } else {
        match lower_statements(c, s, stmts.drop_last(), in_body, in_boundary) {
            Lowering::Done(a) => match lower_statement(c, s, stmts.last(), in_body, in_boundary) {
                Lowering::Done(b) => Lowering::Done(then(a, b)),
                o => o,
            },
            o => o,
        }
    }
}

/// `t` to the power `n` expanded by squaring has the value of `t` to the power `n`.
pub proof fn lemma_exp_tree_value(t: Term, n: nat, env: Env, shift: int)
    ensures
        eval_at(exp_tree(t, n), env, shift) == pow(eval_at(t, env, shift), n),
    decreases n,
{
    let b = eval_at(t, env, shift);
    let sq = Term::Mul(Box::new(t), Box::new(t));
    if n == 0 {
    } else if n == 1 {
        assert(pow(b, 0) == 1);
        assert(pow(b, 1) == b * pow(b, 0));
    } else if n % 2 == 0 {
        lemma_exp_tree_value(sq, n / 2, env, shift);
        lemma_pow_square(b, n / 2);
    } else {
        lemma_exp_tree_value(sq, ((n - 1) / 2) as nat, env, shift);
        lemma_pow_square(b, ((n - 1) / 2) as nat);
        assert(pow(b, n) == b * pow(b, (n - 1) as nat));
    }
}

/// `(b * b)` to the power `k` is `b` to the power `2k`.
proof fn lemma_pow_square(b: int, k: nat)
    ensures
        pow(b * b, k) == pow(b, 2 * k),
    decreases k,
{
    if k > 0 {
        lemma_pow_square(b, (k - 1) as nat);
        assert(pow(b, 2 * k) == b * pow(b, (2 * k - 1) as nat));
        assert(pow(b, (2 * k - 1) as nat) == b * pow(b, (2 * k - 2) as nat));
        assert(((2 * k - 2) as nat) == 2 * ((k - 1) as nat));
        assert(pow(b * b, k) == (b * b) * pow(b * b, (k - 1) as nat));
        assert(b * (b * pow(b, (2 * k - 2) as nat)) == (b * b) * pow(b, (2 * k - 2) as nat))
            by (nonlinear_arith);
    }
}

/// Lowers the syntax tree into a graph: the declarations names refer to, the graph built so
/// far, and the local bindings in scope, innermost last.
pub struct MirBuilder {
    pub globals: Globals,
    pub callables: Vec<(Identifier, bool)>,
    pub graph: Graph,
    pub bindings: Vec<(Identifier, NodeId)>,
}

impl MirBuilder {
    /// The graph is well formed and every binding refers to a stored node.
    pub open spec fn wf(&self) -> bool {
        &&& self.graph.wf()
        &&& self.callables@ == self.globals.callables@
        &&& forall|k: int|
            0 <= k < self.bindings@.len() ==> (#[trigger] self.bindings@[k]).1 < self.graph@.len()
    }

    /// The local bindings, each to the tree of its node.
    pub open spec fn scope(&self) -> Seq<(Identifier, Term)> {
        self.bindings@.map_values(|b: (Identifier, NodeId)| (b.0, term(self.graph@, b.1 as nat)))
    }

    /// The builder after an operation that stored nodes: the declarations are the same, the
    /// graph extends the old one, and the bindings are the same where the operation succeeded.
    pub open spec fn kept(&self, old: &MirBuilder, ok: bool) -> bool {
        &&& self.wf()
        &&& self.graph.extends(&old.graph)
        &&& self.globals == old.globals
        &&& ok ==> self.bindings@ == old.bindings@ && self.scope() == old.scope()
    }

    /// A builder for the declarations, with an empty graph and no local binding.
    pub fn new(
        random_values: Option<RandomValues>,
        trace_columns: Vec<TraceSegment>,
        public_inputs: Vec<Identifier>,
        periodic_columns: Vec<Identifier>,
        callables: Vec<(Identifier, bool)>,
    ) -> (b: MirBuilder)
        ensures
            b.wf(),
            b.globals == (Globals {
                random_values,
                trace_columns,
                public_inputs,
                periodic_columns,
                callables: Ghost(callables@),
            }),
            b.graph@.len() == 0,
            b.graph.boundary_roots@.len() == 0,
            b.graph.integrity_roots@.len() == 0,
            b.graph.buses@.len() == 0,
            b.bindings@.len() == 0,
    {
        let ghost names = callables@;
        let globals = Globals {
            random_values,
            trace_columns,
            public_inputs,
            periodic_columns,
            callables: Ghost(names),
        };
        MirBuilder { globals, callables, graph: Graph::new(), bindings: Vec::new() }
    }
}

/// Extending the graph keeps the trees the bindings denote.
pub proof fn lemma_scope_kept(old: &MirBuilder, new: &MirBuilder)
    requires
        old.wf(),
        new.graph.extends(&old.graph),
        new.bindings@ == old.bindings@,
    ensures
        new.scope() == old.scope(),
{
    assert forall|k: int| 0 <= k < old.bindings@.len() implies new.scope()[k] == old.scope()[k] by {
        lemma_term_kept(&old.graph, &new.graph, old.bindings@[k].1 as nat);
    }
    assert(new.scope() =~= old.scope());
}

/// The outcome of an operation that stores the lowering of an expression.
pub open spec fn stored(g: &Graph, r: Result<NodeId, CompileError>, l: Lowering<Term>) -> bool {
    match l {
        Lowering::Done(t) => r matches Ok(n) && n < g@.len() && term(g@, n as nat) == t,
        Lowering::Failed => r is Err,
        Lowering::Undefined => true,
    }
}

/// The outcome of an operation that stores the lowerings of several expressions.
pub open spec fn stored_all(g: &Graph, r: Result<Vec<NodeId>, CompileError>, l: Lowering<Seq<Term>>) -> bool {
    match l {
        Lowering::Done(ts) => r matches Ok(ids) && all_below(ids@, g@.len())
            && crate::mir::subst::param_terms(g@, ids@) == ts,
        Lowering::Failed => r is Err,
        Lowering::Undefined => true,
    }
}

impl MirBuilder {
    /// The node bound to a name in the innermost scope that binds it.
    pub fn lookup_binding(&self, id: Identifier) -> (r: Option<NodeId>)
        requires
            self.wf(),
        ensures
            match scope_get(self.scope(), id) {
                Some(t) => r matches Some(n) && n < self.graph@.len() && term(self.graph@, n as nat)
                    == t,
                None => r is None,
            },
            r == bound_node(self.bindings@, id),
    {
        let mut k = self.bindings.len();
        proof {
            assert(self.scope().subrange(0, k as int) =~= self.scope());
            assert(self.bindings@.subrange(0, k as int) =~= self.bindings@);
        }
        while k > 0
            invariant
                self.wf(),
                k <= self.bindings@.len(),
                scope_get(self.scope(), id) == scope_get(self.scope().subrange(0, k as int), id),
                bound_node(self.bindings@, id) == bound_node(self.bindings@.subrange(0, k as int), id),
            decreases k,
        {
            let (name, node) = self.bindings[k - 1];
            proof {
                assert(self.scope().subrange(0, k as int).drop_last() =~= self.scope().subrange(
                    0,
                    k - 1,
                ));
                assert(self.scope().subrange(0, k as int).last() == (name, term(self.graph@, node as nat)));
                assert(self.bindings@[k - 1].1 < self.graph@.len());
                assert(self.bindings@.subrange(0, k as int).drop_last() =~= self.bindings@.subrange(
                    0,
                    k - 1,
                ));
                assert(self.bindings@.subrange(0, k as int).last() == (name, node));
            }
            if name == id {
                return Some(node);
            }
            k = k - 1;
        }
        None
    }
}

/// Searching from `k` on finds what searching from the first index not yet excluded finds.
proof fn lemma_find_step<T>(s: Seq<T>, p: spec_fn(T) -> bool, k: int)
    requires
        0 <= k < s.len(),
        !p(s[k]),
    ensures
        find_from(s, p, k) == find_from(s, p, k + 1),
{
}

/// What searching for an index gives, as an index of the vector.
pub open spec fn found_index(f: Option<int>, r: Option<usize>, len: nat) -> bool {
    match r {
        Some(k) => f == Some(k as int) && k < len,
        None => f is None,
    }
}

/// The first random values binding of a name.
fn find_rand_binding(bs: &Vec<RandBinding>, id: Identifier) -> (r: Option<usize>)
    ensures
        found_index(find_from(bs@, rand_named(id), 0), r, bs@.len()),
{
    let mut k: usize = 0;
    while k < bs.len()
        invariant
            k <= bs@.len(),
            find_from(bs@, rand_named(id), 0) == find_from(bs@, rand_named(id), k as int),
        decreases bs@.len() - k,
    {
        if bs[k].name == id {
            return Some(k);
        }
        proof {
            lemma_find_step(bs@, rand_named(id), k as int);
        }
        k = k + 1;
    }
    None
}

/// The first trace binding of a name.
fn find_trace_binding(bs: &Vec<TraceBinding>, id: Identifier) -> (r: Option<usize>)
    ensures
        found_index(find_from(bs@, trace_named(id), 0), r, bs@.len()),
{
    let mut k: usize = 0;
    while k < bs.len()
        invariant
            k <= bs@.len(),
            find_from(bs@, trace_named(id), 0) == find_from(bs@, trace_named(id), k as int),
        decreases bs@.len() - k,
    {
        if bs[k].name == Some(id) {
            return Some(k);
        }
        proof {
            lemma_find_step(bs@, trace_named(id), k as int);
        }
        k = k + 1;
    }
    None
}

/// The first occurrence of a name.
fn find_name(names: &Vec<Identifier>, id: Identifier) -> (r: Option<usize>)
    ensures
        found_index(find_from(names@, is_name(id), 0), r, names@.len()),
{
    let mut k: usize = 0;
    while k < names.len()
        invariant
            k <= names@.len(),
            find_from(names@, is_name(id), 0) == find_from(names@, is_name(id), k as int),
        decreases names@.len() - k,
    {
        if names[k] == id {
            return Some(k);
        }
        proof {
            lemma_find_step(names@, is_name(id), k as int);
        }
        k = k + 1;
    }
    None
}

/// The index of the function (or evaluator) of a name.
fn find_callable(callables: &Vec<(Identifier, bool)>, f: Identifier, function: bool) -> (r: Option<usize>)
    ensures
        found_index(find_from(callables@, callable_named(f, function), 0), r, callables@.len()),
{
    let mut k: usize = 0;
    while k < callables.len()
        invariant
            k <= callables@.len(),
            find_from(callables@, callable_named(f, function), 0) == find_from(
                callables@,
                callable_named(f, function),
                k as int,
            ),
        decreases callables@.len() - k,
    {
        let (name, is_function) = callables[k];
        if name == f && is_function == function {
            return Some(k);
        }
        proof {
            lemma_find_step(callables@, callable_named(f, function), k as int);
        }
        k = k + 1;
    }
    None
}

impl MirBuilder {
    /// The random value an access denotes, if any.
    fn random_value_access(&self, access: &SymbolAccess) -> (r: Option<usize>)
        requires
            !(random_value(self.globals, *access) is Undefined),
        ensures
            match random_value(self.globals, *access) {
                Resolution::Found(i) => r == Some(i),
                _ => r is None,
            },
    {
        let rv = match &self.globals.random_values {
            Some(rv) => rv,
            None => return None,
        };
        let id = access.name.as_ref();
        if rv.name == id {
            return match access.access_type {
                AccessType::Index(index) => Some(index),
                _ => None,
            };
        }
        match find_rand_binding(&rv.bindings, id) {
            Some(k) => {
                let binding = rv.bindings[k];
                match access.access_type {
                    AccessType::Default => Some(binding.offset),
                    AccessType::Index(extra) => Some(binding.offset + extra),
                    _ => None,
                }
            },
            None => None,
        }
    }

    /// The element of a public input an access denotes, if any.
    fn public_input_access(&self, access: &SymbolAccess) -> (r: Option<(usize, usize)>)
        requires
            !(public_input(self.globals, *access) is Undefined),
        ensures
            match public_input(self.globals, *access) {
                Resolution::Found(pi) => r == Some(pi),
                _ => r is None,
            },
    {
        match find_name(&self.globals.public_inputs, access.name.as_ref()) {
            Some(k) => match access.access_type {
                AccessType::Index(index) => Some((k, index)),
                _ => None,
            },
            None => None,
        }
    }

    /// The group of trace columns an access denotes, if any.
    fn trace_access_binding(&self, access: &SymbolAccess) -> (r: Option<TraceAccessBinding>)
        ensures
            r == trace_binding_from(self.globals.trace_columns@, *access, 0),
    {
        let id = access.name.as_ref();
        let segs = &self.globals.trace_columns;
        let mut i: usize = 0;
        while i < segs.len()
            invariant
                i <= segs@.len(),
                id == access.name.id(),
                segs@ == self.globals.trace_columns@,
                trace_binding_from(segs@, *access, 0) == trace_binding_from(segs@, *access, i as int),
            decreases segs@.len() - i,
        {
            match find_trace_binding(&segs[i].bindings, id) {
                Some(k) => {
                    let binding = segs[i].bindings[k];
                    return match access.access_type {
                        AccessType::Default => Some(
                            TraceAccessBinding {
                                segment: binding.segment,
                                offset: binding.offset,
                                size: binding.size,
                            },
                        ),
                        AccessType::Slice(range) => Some(
                            TraceAccessBinding {
                                segment: binding.segment,
                                offset: binding.offset,
                                size: range.len(),
                            },
                        ),
                        _ => None,
                    };
                },
                None => {},
            }
            i = i + 1;
        }
        None
    }

    /// The single trace column an access denotes, if any.
    fn trace_access(&self, access: &SymbolAccess) -> (r: Option<TraceAccess>)
        requires
            !(trace_access_from(self.globals.trace_columns@, *access, 0) is Undefined),
        ensures
            match trace_access_from(self.globals.trace_columns@, *access, 0) {
                Resolution::Found(t) => r == Some(t),
                _ => r is None,
            },
    {
        let id = access.name.as_ref();
        let segs = &self.globals.trace_columns;
        let mut i: usize = 0;
        while i < segs.len()
            invariant
                i <= segs@.len(),
                id == access.name.id(),
                segs@ == self.globals.trace_columns@,
                trace_access_from(segs@, *access, 0) == trace_access_from(segs@, *access, i as int),
                !(trace_access_from(segs@, *access, 0) is Undefined),
            decreases segs@.len() - i,
        {
            if segs[i].name == id {
                return match access.access_type {
                    AccessType::Index(column) => Some(
                        TraceAccess { segment: i, column, row_offset: access.offset },
                    ),
                    _ => None,
                };
            }
            match find_trace_binding(&segs[i].bindings, id) {
                Some(k) => {
                    let binding = segs[i].bindings[k];
                    return match access.access_type {
                        AccessType::Default => Some(
                            TraceAccess {
                                segment: binding.segment,
                                column: binding.offset,
                                row_offset: access.offset,
                            },
                        ),
                        AccessType::Index(extra) => Some(
                            TraceAccess {
                                segment: binding.segment,
                                column: binding.offset + extra,
                                row_offset: access.offset,
                            },
                        ),
                        _ => None,
                    };
                },
                None => {},
            }
            i = i + 1;
        }
        None
    }
}


/// A builder whose graph only grew keeps its bindings and what they denote.
pub proof fn lemma_kept(old: &MirBuilder, new: &MirBuilder)
    requires
        old.wf(),
        new.graph.wf(),
        new.graph.extends(&old.graph),
        new.globals == old.globals,
        new.callables@ == old.callables@,
        new.bindings@ == old.bindings@,
    ensures
        new.kept(old, true),
{
    lemma_scope_kept(old, new);
}

/// Keeping is transitive.
pub proof fn lemma_kept_trans(a: &MirBuilder, b: &MirBuilder, c: &MirBuilder, ok: bool)
    requires
        b.kept(a, true),
        c.kept(b, ok),
    ensures
        c.kept(a, ok),
{
    lemma_extends_trans(&a.graph, &b.graph, &c.graph);
}

impl MirBuilder {
    /// Stores an operation whose operands are stored.
    fn store(&mut self, op: Op) -> (r: NodeId)
        requires
            old(self).wf(),
            crate::mir::graph::operands_below(op, old(self).graph@.len()),
        ensures
            final(self).kept(old(self), true),
            r == old(self).graph@.len(),
            final(self).graph@ == old(self).graph@.push(op),
    {
        let ghost b0 = *self;
        let r = self.graph.insert(op);
        proof {
            lemma_kept(&b0, self);
        }
        r
    }

    /// Stores a leaf.
    fn store_value(&mut self, v: MirValue) -> (r: NodeId)
        requires
            old(self).wf(),
        ensures
            final(self).kept(old(self), true),
            r == old(self).graph@.len(),
            r < final(self).graph@.len(),
            term(final(self).graph@, r as nat) == leaf(v),
    {
        self.store(Op::Value(v))
    }

    /// Stores a copy of the tree at `node`.
    fn dup(&mut self, node: NodeId) -> (r: NodeId)
        requires
            old(self).wf(),
            node < old(self).graph@.len(),
        ensures
            final(self).kept(old(self), true),
            old(self).graph@.len() <= r < final(self).graph@.len(),
            term(final(self).graph@, r as nat) == term(old(self).graph@, node as nat),
    {
        let ghost b0 = *self;
        let r = crate::mir::duplicate::duplicate_node(&mut self.graph, node);
        proof {
            lemma_kept(&b0, self);
        }
        r
    }

    /// Stores what an access to a name denotes, as a new node: a trace column or binding, a
    /// random value, a public input or a periodic column; for a let-bound name, an access to a
    /// copy of the bound node.
    pub fn insert_symbol_access(&mut self, access: &SymbolAccess) -> (r: NodeId)
        requires
            old(self).wf(),
            !(resolve_access(old(self).globals, old(self).scope(), *access) is Undefined),
        ensures
            final(self).kept(old(self), true),
            stored(&final(self).graph, Ok(r), resolve_access(old(self).globals, old(self).scope(), *access)),
            old(self).graph@.len() <= r,
    {
        let id = access.name.as_ref();
        if let ResolvableIdentifier::Resolved(q) = access.name {
            return match find_name(&self.globals.periodic_columns, q) {
                Some(i) => self.store_value(MirValue::PeriodicColumn(i)),
                None => 0,
            };
        }
        if id.special {
            if let Some(rv) = self.random_value_access(access) {
                return self.store_value(MirValue::RandomValue(rv));
            }
            if let Some(tab) = self.trace_access_binding(access) {
                return self.store_value(MirValue::TraceAccessBinding(tab));
            }
            return match self.trace_access(access) {
                Some(ta) => self.store_value(MirValue::TraceAccess(ta)),
                None => 0,
            };
        }
        if let Some(tab) = self.trace_access_binding(access) {
            return self.store_value(MirValue::TraceAccessBinding(tab));
        }
        if let Some(ta) = self.trace_access(access) {
            return self.store_value(MirValue::TraceAccess(ta));
        }
        if let Some(rv) = self.random_value_access(access) {
            return self.store_value(MirValue::RandomValue(rv));
        }
        if let Some((input, index)) = self.public_input_access(access) {
            return self.store_value(MirValue::PublicInput(input, index));
        }
        let ghost b0 = *self;
        match self.lookup_binding(id) {
            Some(bound) => {
                let copy = self.dup(bound);
                let ghost b1 = *self;
                let r = self.store(Op::Accessor(copy, access.access_type, 0));
                proof {
                    lemma_kept_trans(&b0, &b1, self, true);
                    lemma_term_kept(&b1.graph, &self.graph, copy as nat);
                }
                r
            },
            None => 0,
        }
    }

    /// Stores an access in the first or last row.
    pub fn insert_bounded_symbol_access(&mut self, access: &SymbolAccess, kind: BoundaryKind) -> (r: NodeId)
        requires
            old(self).wf(),
            !(resolve_access(old(self).globals, old(self).scope(), *access) is Undefined),
        ensures
            final(self).kept(old(self), true),
            stored(
                &final(self).graph,
                Ok(r),
                lower_scalar(old(self).globals, old(self).scope(), ScalarExpr::BoundedSymbolAccess(*access, kind)),
            ),
    {
        let ghost b0 = *self;
        let node = self.insert_symbol_access(access);
        let ghost b1 = *self;
        let r = self.store(Op::Boundary(kind, node));
        proof {
            lemma_kept_trans(&b0, &b1, self, true);
            lemma_term_kept(&b1.graph, &self.graph, node as nat);
        }
        r
    }

    /// Stores `lhs` to the power `n` as multiplications of copies of `lhs`, squaring at each
    /// step; `lhs` itself is not linked into the result.
    pub fn expand_exp(&mut self, lhs: NodeId, n: u64) -> (r: NodeId)
        requires
            old(self).wf(),
            lhs < old(self).graph@.len(),
        ensures
            final(self).kept(old(self), true),
            old(self).graph@.len() <= r < final(self).graph@.len(),
            term(final(self).graph@, r as nat) == exp_tree(term(old(self).graph@, lhs as nat), n as nat),
        decreases n,
    {
        let ghost b0 = *self;
        let ghost t = term(self.graph@, lhs as nat);
        if n == 0 {
            self.store_value(MirValue::Constant(1))
        } else if n == 1 {
            self.dup(lhs)
        } else {
            let a = self.dup(lhs);
            let ghost ba = *self;
            let b = self.dup(lhs);
            let ghost bb = *self;
            proof {
                lemma_kept_trans(&b0, &ba, &bb, true);
                lemma_term_kept(&ba.graph, &self.graph, a as nat);
                lemma_term_kept(&b0.graph, &ba.graph, lhs as nat);
            }
            if n % 2 == 0 {
                let square = self.store(Op::Mul(a, b));
                let ghost b1 = *self;
                proof {
                    lemma_kept_trans(&b0, &bb, &b1, true);
                    lemma_term_kept(&bb.graph, &self.graph, a as nat);
                    lemma_term_kept(&bb.graph, &self.graph, b as nat);
                    assert(term(self.graph@, square as nat) == Term::Mul(Box::new(t), Box::new(t)));
                }
                let r = self.expand_exp(square, n / 2);
                proof {
                    lemma_kept_trans(&b0, &b1, self, true);
                }
                r
            } else {
                let c = self.dup(lhs);
                let ghost bc = *self;
                proof {
                    lemma_kept_trans(&b0, &bb, &bc, true);
                    lemma_term_kept(&bb.graph, &bc.graph, a as nat);
                    lemma_term_kept(&bb.graph, &bc.graph, b as nat);
                    lemma_term_kept(&b0.graph, &bb.graph, lhs as nat);
                }
                let square = self.store(Op::Mul(a, b));
                let ghost b1 = *self;
                proof {
                    lemma_kept_trans(&b0, &bc, &b1, true);
                    lemma_term_kept(&bc.graph, &self.graph, a as nat);
                    lemma_term_kept(&bc.graph, &self.graph, b as nat);
                    lemma_term_kept(&bc.graph, &self.graph, c as nat);
                    assert(term(self.graph@, square as nat) == Term::Mul(Box::new(t), Box::new(t)));
                }
                let rec = self.expand_exp(square, (n - 1) / 2);
                let ghost b2 = *self;
                let r = self.store(Op::Mul(c, rec));
                proof {
                    lemma_kept_trans(&b1, &b2, self, true);
                    lemma_kept_trans(&b0, &b1, self, true);
                    lemma_term_kept(&b1.graph, &self.graph, c as nat);
                    lemma_term_kept(&b2.graph, &self.graph, rec as nat);
                }
                r
            }
        }
    }

    /// Stores a constant: a scalar, or a vector or matrix of scalars.
    pub fn insert_typed_constant(&mut self, value: &ConstantExpr) -> (r: NodeId)
        requires
            old(self).wf(),
        ensures
            final(self).kept(old(self), true),
            old(self).graph@.len() <= r < final(self).graph@.len(),
            term(final(self).graph@, r as nat) == const_term(*value),
    {
        let ghost b0 = *self;
        let r = match value {
            ConstantExpr::Scalar(v) => self.graph.insert_value(MirValue::Constant(*v)),
            ConstantExpr::Vector(v) => {
                let w = crate::mir::graph::copy_u64s(v);
                self.graph.insert_value(MirValue::ConstantVector(w))
            },
            ConstantExpr::Matrix(m) => {
                self.graph.insert_value(MirValue::ConstantMatrix(copy_rows(m)))
            },
        };
        proof {
            lemma_kept(&b0, self);
        }
        r
    }

    /// Stores the numbers of a range, as a constant vector.
    pub fn insert_range(&mut self, range: &RangeExpr) -> (r: NodeId)
        requires
            old(self).wf(),
        ensures
            final(self).kept(old(self), true),
            old(self).graph@.len() <= r < final(self).graph@.len(),
            term(final(self).graph@, r as nat) == range_term(*range),
    {
        let n = range.len();
        let mut values: Vec<u64> = Vec::new();
        let mut i: usize = 0;
        while i < n
            invariant
                n == range.spec_len(),
                i <= n,
                values@.len() == i,
                forall|j: int| 0 <= j < i ==> values@[j] == (range.start + j) as u64,
            decreases n - i,
        {
            values.push((range.start + i) as u64);
            i = i + 1;
        }
        let ghost b0 = *self;
        let r = self.graph.insert_value(MirValue::ConstantVector(values));
        proof {
            lemma_kept(&b0, self);
            assert(values@ =~= Seq::new(range.spec_len(), |k: int| (range.start + k) as u64));
        }
        r
    }
}

/// A copy of the rows of a matrix.
fn copy_rows(m: &Vec<Vec<u64>>) -> (r: Vec<Vec<u64>>)
    ensures
        r@.map_values(|x: Vec<u64>| x@) == m@.map_values(|x: Vec<u64>| x@),
{
    let mut out: Vec<Vec<u64>> = Vec::new();
    let mut k: usize = 0;
    while k < m.len()
        invariant
            k <= m@.len(),
            out@.len() == k,
            forall|j: int| 0 <= j < k ==> (#[trigger] out@[j])@ == m@[j]@,
        decreases m@.len() - k,
    {
        out.push(crate::mir::graph::copy_u64s(&m[k]));
        k = k + 1;
    }
    proof {
        assert(out@.map_values(|x: Vec<u64>| x@) =~= m@.map_values(|x: Vec<u64>| x@));
    }
    out
}

/// Once a prefix of the arguments does not lower, the arguments do not.
proof fn lemma_args_prefix(c: Globals, s: Seq<(Identifier, Term)>, es: Seq<Expr>, k: int)
    requires
        0 <= k <= es.len(),
        lower_args(c, s, es.subrange(0, k)) is None,
    ensures
        lower_args(c, s, es) is None,
    decreases es.len() - k,
{
    if k == es.len() {
        assert(es.subrange(0, k) =~= es);
    } else {
        assert(es.subrange(0, k + 1).drop_last() =~= es.subrange(0, k));
        lemma_args_prefix(c, s, es, k + 1);
    }
}

/// Once a prefix of the arguments of an evaluator does not lower, the arguments do not.
proof fn lemma_eval_args_prefix(c: Globals, s: Seq<(Identifier, Term)>, es: Seq<Expr>, k: int)
    requires
        0 <= k <= es.len(),
        lower_eval_args(c, s, es.subrange(0, k)) is None,
    ensures
        lower_eval_args(c, s, es) is None,
    decreases es.len() - k,
{
    if k == es.len() {
        assert(es.subrange(0, k) =~= es);
    } else {
        assert(es.subrange(0, k + 1).drop_last() =~= es.subrange(0, k));
        lemma_eval_args_prefix(c, s, es, k + 1);
    }
}

/// Once a prefix does not lower, the lowering of the whole is that of the prefix.
proof fn lemma_scalar_elems_prefix(c: Globals, s: Seq<(Identifier, Term)>, es: Seq<Expr>, k: int)
    requires
        0 <= k <= es.len(),
        !(lower_scalar_elems(c, s, es.subrange(0, k)) is Done),
    ensures
        lower_scalar_elems(c, s, es) == lower_scalar_elems(c, s, es.subrange(0, k)),
    decreases es.len() - k,
{
    if k == es.len() {
        assert(es.subrange(0, k) =~= es);
    } else {
        assert(es.subrange(0, k + 1).drop_last() =~= es.subrange(0, k));
        lemma_scalar_elems_prefix(c, s, es, k + 1);
    }
}

proof fn lemma_scalars_prefix(c: Globals, s: Seq<(Identifier, Term)>, es: Seq<ScalarExpr>, k: int)
    requires
        0 <= k <= es.len(),
        !(lower_scalars(c, s, es.subrange(0, k)) is Done),
    ensures
        lower_scalars(c, s, es) == lower_scalars(c, s, es.subrange(0, k)),
    decreases es.len() - k,
{
    if k == es.len() {
        assert(es.subrange(0, k) =~= es);
    } else {
        assert(es.subrange(0, k + 1).drop_last() =~= es.subrange(0, k));
        lemma_scalars_prefix(c, s, es, k + 1);
    }
}

proof fn lemma_matrix_prefix(c: Globals, s: Seq<(Identifier, Term)>, rows: Seq<Vec<ScalarExpr>>, k: int)
    requires
        0 <= k <= rows.len(),
        !(lower_matrix(c, s, rows.subrange(0, k)) is Done),
    ensures
        lower_matrix(c, s, rows) == lower_matrix(c, s, rows.subrange(0, k)),
    decreases rows.len() - k,
{
    if k == rows.len() {
        assert(rows.subrange(0, k) =~= rows);
    } else {
        assert(rows.subrange(0, k + 1).drop_last() =~= rows.subrange(0, k));
        lemma_matrix_prefix(c, s, rows, k + 1);
    }
}

proof fn lemma_rows_prefix(c: Globals, s: Seq<(Identifier, Term)>, es: Seq<Expr>, n: usize, k: int)
    requires
        0 <= k <= es.len(),
        !(lower_rows(c, s, es.subrange(0, k), n) is Done),
    ensures
        lower_rows(c, s, es, n) == lower_rows(c, s, es.subrange(0, k), n),
    decreases es.len() - k,
{
    if k == es.len() {
        assert(es.subrange(0, k) =~= es);
    } else {
        assert(es.subrange(0, k + 1).drop_last() =~= es.subrange(0, k));
        lemma_rows_prefix(c, s, es, n, k + 1);
    }
}

proof fn lemma_iterables_prefix(c: Globals, s: Seq<(Identifier, Term)>, es: Seq<Expr>, k: int)
    requires
        0 <= k <= es.len(),
        !(lower_iterables(c, s, es.subrange(0, k)) is Done),
    ensures
        lower_iterables(c, s, es) == lower_iterables(c, s, es.subrange(0, k)),
    decreases es.len() - k,
{
    if k == es.len() {
        assert(es.subrange(0, k) =~= es);
    } else {
        assert(es.subrange(0, k + 1).drop_last() =~= es.subrange(0, k));
        lemma_iterables_prefix(c, s, es, k + 1);
    }
}

proof fn lemma_columns_prefix(c: Globals, s: Seq<(Identifier, Term)>, a: SymbolAccess, n: nat, k: nat)
    requires
        k <= n,
        !(lower_columns(c, s, a, k) is Done),
    ensures
        lower_columns(c, s, a, n) == lower_columns(c, s, a, k),
    decreases n - k,
{
    if k < n {
        lemma_columns_prefix(c, s, a, n, k + 1);
    }
}

/// The trees of nodes, one more appended.
proof fn lemma_param_terms_push(g: Seq<Op>, ids: Seq<NodeId>, n: NodeId)
    ensures
        crate::mir::subst::param_terms(g, ids.push(n)) == crate::mir::subst::param_terms(g, ids).push(
            term(g, n as nat),
        ),
{
    assert(crate::mir::subst::param_terms(g, ids.push(n)) =~= crate::mir::subst::param_terms(g, ids).push(
        term(g, n as nat),
    ));
}

/// The trees of the operands of a node stored after them.
proof fn lemma_operand_terms(g: Seq<Op>, ids: Seq<NodeId>, bound: nat)
    requires
        all_below(ids, bound),
    ensures
        crate::mir::term::terms(g, ids, bound) == crate::mir::subst::param_terms(g, ids),
{
    crate::mir::term::lemma_terms_index(g, ids, bound);
    assert(crate::mir::term::terms(g, ids, bound) =~= crate::mir::subst::param_terms(g, ids));
}

impl MirBuilder {
    /// Stores a vector of stored nodes.
    fn store_vector(&mut self, ids: Vec<NodeId>) -> (r: NodeId)
        requires
            old(self).wf(),
            all_below(ids@, old(self).graph@.len()),
        ensures
            final(self).kept(old(self), true),
            old(self).graph@.len() <= r < final(self).graph@.len(),
            term(final(self).graph@, r as nat) == Term::Vector(
                crate::mir::subst::param_terms(old(self).graph@, ids@),
            ),
    {
        let ghost b0 = *self;
        let r = crate::mir::unrolling::mk_vector(&mut self.graph, ids);
        proof {
            lemma_kept(&b0, self);
        }
        r
    }

    /// Stores an operation over a sequence of stored nodes (a matrix or a call).
    fn store_list(&mut self, op: Op, Ghost(ids): Ghost<Seq<NodeId>>) -> (r: NodeId)
        requires
            old(self).wf(),
            all_below(ids, old(self).graph@.len()),
            (op matches Op::Matrix(v) && v@ == ids) || (op matches Op::Call(_, v) && v@ == ids),
        ensures
            final(self).kept(old(self), true),
            old(self).graph@.len() <= r < final(self).graph@.len(),
            term(final(self).graph@, r as nat) == (match op {
                Op::Call(f, _) => Term::Call(f, crate::mir::subst::param_terms(old(self).graph@, ids)),
                _ => Term::Matrix(crate::mir::subst::param_terms(old(self).graph@, ids)),
            }),
    {
        let ghost b0 = *self;
        let r = self.store(op);
        proof {
            lemma_operand_terms(self.graph@, ids, r as nat);
            crate::mir::unrolling::lemma_param_terms_kept(&b0.graph, &self.graph, ids);
        }
        r
    }

    /// Stores a call of the callable at index `k`.
    fn store_call(&mut self, k: usize, args: Vec<NodeId>) -> (r: NodeId)
        requires
            old(self).wf(),
            all_below(args@, old(self).graph@.len()),
        ensures
            final(self).kept(old(self), true),
            old(self).graph@.len() <= r < final(self).graph@.len(),
            term(final(self).graph@, r as nat) == Term::Call(
                k,
                crate::mir::subst::param_terms(old(self).graph@, args@),
            ),
    {
        let ghost ids = args@;
        self.store_list(Op::Call(k, args), Ghost(ids))
    }

    /// Stores a matrix of rows.
    fn store_matrix(&mut self, rows: Vec<NodeId>) -> (r: NodeId)
        requires
            old(self).wf(),
            all_below(rows@, old(self).graph@.len()),
        ensures
            final(self).kept(old(self), true),
            old(self).graph@.len() <= r < final(self).graph@.len(),
            term(final(self).graph@, r as nat) == Term::Matrix(
                crate::mir::subst::param_terms(old(self).graph@, rows@),
            ),
    {
        let ghost ids = rows@;
        self.store_list(Op::Matrix(rows), Ghost(ids))
    }

    /// Stores a scalar expression.
    pub fn insert_scalar_expr(&mut self, expr: &ScalarExpr) -> (r: Result<NodeId, CompileError>)
        requires
            old(self).wf(),
            !(lower_scalar(old(self).globals, old(self).scope(), *expr) is Undefined),
        ensures
            final(self).kept(old(self), r is Ok),
            stored(&final(self).graph, r, lower_scalar(old(self).globals, old(self).scope(), *expr)),
        decreases *expr,
    {
        match expr {
            ScalarExpr::Const(v) => Ok(self.store_value(MirValue::Constant(*v))),
            ScalarExpr::SymbolAccess(access) => Ok(self.insert_symbol_access(access)),
            ScalarExpr::BoundedSymbolAccess(access, kind) => Ok(
                self.insert_bounded_symbol_access(access, *kind),
            ),
            ScalarExpr::Binary(b) => self.insert_binary_expr(b),
            ScalarExpr::Call(call) => Ok(self.insert_scalar_call(call)),
            ScalarExpr::Let(l) => self.expand_let_expr(l),
        }
    }

    /// Stores an expression that converts to a scalar expression.
    fn insert_expr_as_scalar(&mut self, expr: &Expr) -> (r: Result<NodeId, CompileError>)
        requires
            old(self).wf(),
            !(lower_as_scalar(old(self).globals, old(self).scope(), *expr) is Undefined),
        ensures
            final(self).kept(old(self), r is Ok),
            stored(&final(self).graph, r, lower_as_scalar(old(self).globals, old(self).scope(), *expr)),
        decreases *expr,
    {
        match expr {
            Expr::Const(ConstantExpr::Scalar(v)) => Ok(self.store_value(MirValue::Constant(*v))),
            Expr::SymbolAccess(access) => Ok(self.insert_symbol_access(access)),
            Expr::Binary(b) => self.insert_binary_expr(b),
            Expr::Call(call) => Ok(self.insert_scalar_call(call)),
            Expr::Let(l) => self.expand_let_expr(l),
            _ => Err(CompileError::Failed),
        }
    }

    /// Stores a binary expression; an exponentiation by a constant is expanded into
    /// multiplications, and an exponent that is not a constant is an error.
    pub fn insert_binary_expr(&mut self, expr: &BinaryExpr) -> (r: Result<NodeId, CompileError>)
        requires
            old(self).wf(),
            !(lower_binary(old(self).globals, old(self).scope(), *expr) is Undefined),
        ensures
            final(self).kept(old(self), r is Ok),
            stored(&final(self).graph, r, lower_binary(old(self).globals, old(self).scope(), *expr)),
            r matches Ok(n) ==> old(self).graph@.len() <= n,
        decreases *expr,
    {
        let ghost b0 = *self;
        let lhs = match self.insert_scalar_expr(&expr.lhs) {
            Ok(n) => n,
            Err(e) => {
                return Err(e);
            },
        };
        let ghost b1 = *self;
        if expr.op == BinaryOp::Exp {
            return match &*expr.rhs {
                ScalarExpr::Const(n) => {
                    let r = self.expand_exp(lhs, *n);
                    proof {
                        lemma_kept_trans(&b0, &b1, self, true);
                    }
                    Ok(r)
                },
                _ => Err(CompileError::Failed),
            };
        }
        let rhs = match self.insert_scalar_expr(&expr.rhs) {
            Ok(n) => n,
            Err(e) => {
                proof {
                    lemma_kept_trans(&b0, &b1, self, false);
                }
                return Err(e);
            },
        };
        let ghost b2 = *self;
        proof {
            lemma_kept_trans(&b0, &b1, &b2, true);
            lemma_term_kept(&b1.graph, &b2.graph, lhs as nat);
        }
        let r = match expr.op {
            BinaryOp::Add => self.store(Op::Add(lhs, rhs)),
            BinaryOp::Sub => self.store(Op::Sub(lhs, rhs)),
            BinaryOp::Mul => self.store(Op::Mul(lhs, rhs)),
            _ => {
                let sub = self.store(Op::Sub(lhs, rhs));
                let ghost b3 = *self;
                let r = self.store(Op::Enf(sub));
                proof {
                    lemma_kept_trans(&b2, &b3, self, true);
                    lemma_term_kept(&b3.graph, &self.graph, sub as nat);
                }
                r
            },
        };
        proof {
            lemma_kept_trans(&b0, &b2, self, true);
            lemma_term_kept(&b2.graph, &self.graph, lhs as nat);
            lemma_term_kept(&b2.graph, &self.graph, rhs as nat);
        }
        Ok(r)
    }

    /// Stores a call in a scalar position: a builtin, a function, or an evaluator, whose
    /// arguments are vectors.
    fn insert_scalar_call(&mut self, call: &Call) -> (r: NodeId)
        requires
            old(self).wf(),
            !(lower_scalar_call(old(self).globals, old(self).scope(), *call) is Undefined),
        ensures
            final(self).kept(old(self), true),
            stored(&final(self).graph, Ok(r), lower_scalar_call(old(self).globals, old(self).scope(), *call)),
            old(self).graph@.len() <= r,
        decreases *call,
    {
        let ghost b0 = *self;
        match call.callee {
            Callee::Sum => self.insert_builtin(&call.args, FoldOperator::Add, 0),
            Callee::Prod => self.insert_builtin(&call.args, FoldOperator::Mul, 1),
            Callee::Named(f) => match find_callable(&self.callables, f, true) {
                Some(k) => {
                    let args = self.insert_args(&call.args);
                    let ghost b1 = *self;
                    let r = self.store_call(k, args);
                    proof {
                        lemma_kept_trans(&b0, &b1, self, true);
                    }
                    r
                },
                None => {
                    let args = self.insert_eval_args(&call.args);
                    let ghost b1 = *self;
                    match find_callable(&self.callables, f, false) {
                        Some(k) => {
                            let r = self.store_call(k, args);
                            proof {
                                lemma_kept_trans(&b0, &b1, self, true);
                            }
                            r
                        },
                        None => 0,
                    }
                },
            },
        }
    }

    /// Stores a call in any other position: a builtin or a function.
    fn insert_expr_call(&mut self, call: &Call) -> (r: NodeId)
        requires
            old(self).wf(),
            !(lower_expr_call(old(self).globals, old(self).scope(), *call) is Undefined),
        ensures
            final(self).kept(old(self), true),
            stored(&final(self).graph, Ok(r), lower_expr_call(old(self).globals, old(self).scope(), *call)),
            old(self).graph@.len() <= r,
        decreases *call,
    {
        let ghost b0 = *self;
        match call.callee {
            Callee::Sum => self.insert_builtin(&call.args, FoldOperator::Add, 0),
            Callee::Prod => self.insert_builtin(&call.args, FoldOperator::Mul, 1),
            Callee::Named(f) => {
                let args = self.insert_args(&call.args);
                let ghost b1 = *self;
                match find_callable(&self.callables, f, true) {
                    Some(k) => {
                        let r = self.store_call(k, args);
                        proof {
                            lemma_kept_trans(&b0, &b1, self, true);
                        }
                        r
                    },
                    None => 0,
                }
            },
        }
    }

    /// Stores `sum` or `prod` of the single argument: a fold from `init`.
    fn insert_builtin(&mut self, args: &Vec<Expr>, op: FoldOperator, init: u64) -> (r: NodeId)
        requires
            old(self).wf(),
            !(lower_builtin(old(self).globals, old(self).scope(), args@, op, init) is Undefined),
        ensures
            final(self).kept(old(self), true),
            stored(&final(self).graph, Ok(r), lower_builtin(old(self).globals, old(self).scope(), args@, op, init)),
            old(self).graph@.len() <= r,
        decreases *args,
    {
        let ghost b0 = *self;
        let iterator = match self.insert_expr(&args[0]) {
            Ok(n) => n,
            Err(_) => 0,
        };
        let ghost b1 = *self;
        let accumulator = self.store_value(MirValue::Constant(init));
        let ghost b2 = *self;
        let r = self.store(Op::Fold(iterator, op, accumulator));
        proof {
            lemma_extends_trans(&b1.graph, &b2.graph, &self.graph);
            lemma_kept_trans(&b0, &b1, &b2, true);
            lemma_kept_trans(&b0, &b2, self, true);
            lemma_term_kept(&b1.graph, &self.graph, iterator as nat);
            lemma_term_kept(&b2.graph, &self.graph, accumulator as nat);
        }
        r
    }

    /// Stores the arguments of a call.
    fn insert_args(&mut self, args: &Vec<Expr>) -> (r: Vec<NodeId>)
        requires
            old(self).wf(),
            lower_args(old(self).globals, old(self).scope(), args@) is Some,
        ensures
            final(self).kept(old(self), true),
            all_below(r@, final(self).graph@.len()),
            Some(crate::mir::subst::param_terms(final(self).graph@, r@)) == lower_args(
                old(self).globals,
                old(self).scope(),
                args@,
            ),
        decreases *args,
    {
        let ghost b0 = *self;
        let ghost c = self.globals;
        let ghost sc = self.scope();
        proof {
            lemma_extends_refl(&self.graph);
            lemma_kept(&b0, self);
            assert(args@.subrange(0, 0) =~= Seq::<Expr>::empty());
        }
        let mut ids: Vec<NodeId> = Vec::new();
        let mut k: usize = 0;
        proof {
            assert(crate::mir::subst::param_terms(self.graph@, ids@) =~= Seq::<Term>::empty());
        }
        while k < args.len()
            invariant
                self.kept(&b0, true),
                b0 == *old(self),
                c == b0.globals,
                sc == b0.scope(),
                k <= args@.len(),
                ids@.len() == k,
                all_below(ids@, self.graph@.len()),
                lower_args(c, sc, args@) is Some,
                lower_args(c, sc, args@.subrange(0, k as int)) == Some(
                    crate::mir::subst::param_terms(self.graph@, ids@),
                ),
            decreases args@.len() - k,
        {
            proof {
                assert(args@.subrange(0, k + 1).drop_last() =~= args@.subrange(0, k as int));
                assert(args@.subrange(0, k + 1).last() == args@[k as int]);
                if !(lower_expr(c, sc, args@[k as int]) is Done) {
                    lemma_args_prefix(c, sc, args@, k + 1);
                }
            }
            let ghost bk = *self;
            let n = match self.insert_expr(&args[k]) {
                Ok(n) => n,
                Err(_) => 0,
            };
            proof {
                lemma_kept_trans(&b0, &bk, self, true);
                crate::mir::unrolling::lemma_param_terms_kept(&bk.graph, &self.graph, ids@);
            }
            ids.push(n);
            proof {
                assert(crate::mir::subst::param_terms(self.graph@, ids@) =~= crate::mir::subst::param_terms(
                    self.graph@,
                    ids@.drop_last(),
                ).push(term(self.graph@, n as nat)));
                assert(ids@.drop_last() =~= ids@.subrange(0, k as int));
            }
            k = k + 1;
        }
        proof {
            assert(args@.subrange(0, k as int) =~= args@);
        }
        ids
    }
}

impl MirBuilder {
    /// Stores the arguments of an evaluator: each a vector of stored elements.
    fn insert_eval_args(&mut self, args: &Vec<Expr>) -> (r: Vec<NodeId>)
        requires
            old(self).wf(),
            lower_eval_args(old(self).globals, old(self).scope(), args@) is Some,
        ensures
            final(self).kept(old(self), true),
            all_below(r@, final(self).graph@.len()),
            Some(crate::mir::subst::param_terms(final(self).graph@, r@)) == lower_eval_args(
                old(self).globals,
                old(self).scope(),
                args@,
            ),
        decreases *args,
    {
        let ghost b0 = *self;
        let ghost c = self.globals;
        let ghost sc = self.scope();
        proof {
            lemma_extends_refl(&self.graph);
            lemma_kept(&b0, self);
            assert(args@.subrange(0, 0) =~= Seq::<Expr>::empty());
        }
        let mut ids: Vec<NodeId> = Vec::new();
        let mut k: usize = 0;
        proof {
            assert(crate::mir::subst::param_terms(self.graph@, ids@) =~= Seq::<Term>::empty());
        }
        while k < args.len()
            invariant
                self.kept(&b0, true),
                b0 == *old(self),
                c == b0.globals,
                sc == b0.scope(),
                k <= args@.len(),
                ids@.len() == k,
                all_below(ids@, self.graph@.len()),
                lower_eval_args(c, sc, args@) is Some,
                lower_eval_args(c, sc, args@.subrange(0, k as int)) == Some(
                    crate::mir::subst::param_terms(self.graph@, ids@),
                ),
            decreases args@.len() - k,
        {
            proof {
                assert(args@.subrange(0, k + 1).drop_last() =~= args@.subrange(0, k as int));
                assert(args@.subrange(0, k + 1).last() == args@[k as int]);
                if lower_eval_args(c, sc, args@.subrange(0, k + 1)) is None {
                    lemma_eval_args_prefix(c, sc, args@, k + 1);
                }
            }
            let ghost bk = *self;
            let n = match &args[k] {
                Expr::Vector(elems) => {
                    let elem_ids = self.insert_args(elems);
                    let ghost b1 = *self;
                    let v = self.store_vector(elem_ids);
                    proof {
                        lemma_kept_trans(&bk, &b1, self, true);
                    }
                    v
                },
                _ => 0,
            };
            proof {
                lemma_kept_trans(&b0, &bk, self, true);
                crate::mir::unrolling::lemma_param_terms_kept(&bk.graph, &self.graph, ids@);
            }
            let ghost old_ids = ids@;
            ids.push(n);
            proof {
                lemma_param_terms_push(self.graph@, old_ids, n);
            }
            k = k + 1;
        }
        proof {
            assert(args@.subrange(0, k as int) =~= args@);
        }
        ids
    }

    /// Stores a `let`: its value is bound to its name while the statement it ends with is
    /// stored; the bindings are restored afterwards.
    pub fn expand_let_expr(&mut self, expr: &Let) -> (r: Result<NodeId, CompileError>)
        requires
            old(self).wf(),
            !(lower_let(old(self).globals, old(self).scope(), *expr) is Undefined),
        ensures
            final(self).kept(old(self), r is Ok),
            stored(&final(self).graph, r, lower_let(old(self).globals, old(self).scope(), *expr)),
        decreases *expr,
    {
        let ghost b0 = *self;
        let bound = match self.insert_expr(&expr.value) {
            Ok(n) => n,
            Err(e) => {
                return Err(e);
            },
        };
        let ghost b1 = *self;
        let saved = self.bindings.len();
        self.bindings.push((expr.name, bound));
        let ghost b2 = *self;
        proof {
            lemma_extends_refl(&self.graph);
        }
        proof {
            assert(self.scope() =~= b1.scope().push((expr.name, term(self.graph@, bound as nat))));
        }
        let n = expr.body.len();
        let r = if n == 0 {
            proof {
                lemma_extends_refl(&self.graph);
            }
            Err(CompileError::Failed)
        } else {
            match &expr.body[n - 1] {
                Statement::Let(next) => self.expand_let_expr(next),
                Statement::Expr(e) => self.insert_expr(e),
                _ => {
                    proof {
                        lemma_extends_refl(&self.graph);
                    }
                    Err(CompileError::Failed)
                },
            }
        };
        if r.is_ok() {
            self.bindings.truncate(saved);
            proof {
                assert(self.bindings@ =~= b1.bindings@);
                lemma_kept(&b1, self);
                lemma_kept_trans(&b0, &b1, self, true);
            }
        } else {
            proof {
                lemma_extends_trans(&b1.graph, &b2.graph, &self.graph);
                lemma_extends_trans(&b0.graph, &b1.graph, &self.graph);
            }
        }
        r
    }

    /// Stores expressions that convert to scalar expressions.
    fn insert_scalar_elems(&mut self, es: &Vec<Expr>) -> (r: Result<Vec<NodeId>, CompileError>)
        requires
            old(self).wf(),
            !(lower_scalar_elems(old(self).globals, old(self).scope(), es@) is Undefined),
        ensures
            final(self).kept(old(self), r is Ok),
            stored_all(&final(self).graph, r, lower_scalar_elems(old(self).globals, old(self).scope(), es@)),
        decreases *es,
    {
        let ghost b0 = *self;
        let ghost c = self.globals;
        let ghost sc = self.scope();
        proof {
            lemma_extends_refl(&self.graph);
            lemma_kept(&b0, self);
            assert(es@.subrange(0, 0) =~= Seq::<Expr>::empty());
        }
        let mut ids: Vec<NodeId> = Vec::new();
        let mut k: usize = 0;
        proof {
            assert(crate::mir::subst::param_terms(self.graph@, ids@) =~= Seq::<Term>::empty());
        }
        while k < es.len()
            invariant
                self.kept(&b0, true),
                b0 == *old(self),
                c == b0.globals,
                sc == b0.scope(),
                k <= es@.len(),
                ids@.len() == k,
                all_below(ids@, self.graph@.len()),
                !(lower_scalar_elems(c, sc, es@) is Undefined),
                lower_scalar_elems(c, sc, es@.subrange(0, k as int)) == Lowering::Done(
                    crate::mir::subst::param_terms(self.graph@, ids@),
                ),
            decreases es@.len() - k,
        {
            proof {
                assert(es@.subrange(0, k + 1).drop_last() =~= es@.subrange(0, k as int));
                assert(es@.subrange(0, k + 1).last() == es@[k as int]);
                if !(lower_scalar_elems(c, sc, es@.subrange(0, k + 1)) is Done) {
                    lemma_scalar_elems_prefix(c, sc, es@, k + 1);
                }
            }
            let ghost bk = *self;
            let n = match self.insert_expr_as_scalar(&es[k]) {
                Ok(n) => n,
                Err(e) => {
                    proof {
                        lemma_kept_trans(&b0, &bk, self, false);
                    }
                    return Err(e);
                },
            };
            proof {
                lemma_kept_trans(&b0, &bk, self, true);
                crate::mir::unrolling::lemma_param_terms_kept(&bk.graph, &self.graph, ids@);
            }
            let ghost old_ids = ids@;
            ids.push(n);
            proof {
                lemma_param_terms_push(self.graph@, old_ids, n);
            }
            k = k + 1;
        }
        proof {
            assert(es@.subrange(0, k as int) =~= es@);
        }
        Ok(ids)
    }

    /// Stores scalar expressions.
    fn insert_scalars(&mut self, es: &Vec<ScalarExpr>) -> (r: Result<Vec<NodeId>, CompileError>)
        requires
            old(self).wf(),
            !(lower_scalars(old(self).globals, old(self).scope(), es@) is Undefined),
        ensures
            final(self).kept(old(self), r is Ok),
            stored_all(&final(self).graph, r, lower_scalars(old(self).globals, old(self).scope(), es@)),
        decreases *es,
    {
        let ghost b0 = *self;
        let ghost c = self.globals;
        let ghost sc = self.scope();
        proof {
            lemma_extends_refl(&self.graph);
            lemma_kept(&b0, self);
            assert(es@.subrange(0, 0) =~= Seq::<ScalarExpr>::empty());
        }
        let mut ids: Vec<NodeId> = Vec::new();
        let mut k: usize = 0;
        proof {
            assert(crate::mir::subst::param_terms(self.graph@, ids@) =~= Seq::<Term>::empty());
        }
        while k < es.len()
            invariant
                self.kept(&b0, true),
                b0 == *old(self),
                c == b0.globals,
                sc == b0.scope(),
                k <= es@.len(),
                ids@.len() == k,
                all_below(ids@, self.graph@.len()),
                !(lower_scalars(c, sc, es@) is Undefined),
                lower_scalars(c, sc, es@.subrange(0, k as int)) == Lowering::Done(
                    crate::mir::subst::param_terms(self.graph@, ids@),
                ),
            decreases es@.len() - k,
        {
            proof {
                assert(es@.subrange(0, k + 1).drop_last() =~= es@.subrange(0, k as int));
                assert(es@.subrange(0, k + 1).last() == es@[k as int]);
                if !(lower_scalars(c, sc, es@.subrange(0, k + 1)) is Done) {
                    lemma_scalars_prefix(c, sc, es@, k + 1);
                }
            }
            let ghost bk = *self;
            let n = match self.insert_scalar_expr(&es[k]) {
                Ok(n) => n,
                Err(e) => {
                    proof {
                        lemma_kept_trans(&b0, &bk, self, false);
                    }
                    return Err(e);
                },
            };
            proof {
                lemma_kept_trans(&b0, &bk, self, true);
                crate::mir::unrolling::lemma_param_terms_kept(&bk.graph, &self.graph, ids@);
            }
            let ghost old_ids = ids@;
            ids.push(n);
            proof {
                lemma_param_terms_push(self.graph@, old_ids, n);
            }
            k = k + 1;
        }
        proof {
            assert(es@.subrange(0, k as int) =~= es@);
        }
        Ok(ids)
    }

    /// Stores the rows of a matrix, each a vector.
    fn insert_matrix_rows(&mut self, rows: &Vec<Vec<ScalarExpr>>) -> (r: Result<Vec<NodeId>, CompileError>)
        requires
            old(self).wf(),
            !(lower_matrix(old(self).globals, old(self).scope(), rows@) is Undefined),
        ensures
            final(self).kept(old(self), r is Ok),
            stored_all(&final(self).graph, r, lower_matrix(old(self).globals, old(self).scope(), rows@)),
        decreases *rows,
    {
        let ghost b0 = *self;
        let ghost c = self.globals;
        let ghost sc = self.scope();
        proof {
            lemma_extends_refl(&self.graph);
            lemma_kept(&b0, self);
            assert(rows@.subrange(0, 0) =~= Seq::<Vec<ScalarExpr>>::empty());
        }
        let mut ids: Vec<NodeId> = Vec::new();
        let mut k: usize = 0;
        proof {
            assert(crate::mir::subst::param_terms(self.graph@, ids@) =~= Seq::<Term>::empty());
        }
        while k < rows.len()
            invariant
                self.kept(&b0, true),
                b0 == *old(self),
                c == b0.globals,
                sc == b0.scope(),
                k <= rows@.len(),
                ids@.len() == k,
                all_below(ids@, self.graph@.len()),
                !(lower_matrix(c, sc, rows@) is Undefined),
                lower_matrix(c, sc, rows@.subrange(0, k as int)) == Lowering::Done(
                    crate::mir::subst::param_terms(self.graph@, ids@),
                ),
            decreases rows@.len() - k,
        {
            proof {
                assert(rows@.subrange(0, k + 1).drop_last() =~= rows@.subrange(0, k as int));
                assert(rows@.subrange(0, k + 1).last() == rows@[k as int]);
                if !(lower_matrix(c, sc, rows@.subrange(0, k + 1)) is Done) {
                    lemma_matrix_prefix(c, sc, rows@, k + 1);
                }
            }
            let ghost bk = *self;
            let cols = match self.insert_scalars(&rows[k]) {
                Ok(cols) => cols,
                Err(e) => {
                    proof {
                        lemma_kept_trans(&b0, &bk, self, false);
                    }
                    return Err(e);
                },
            };
            let ghost b1 = *self;
            let n = self.store_vector(cols);
            proof {
                lemma_kept_trans(&bk, &b1, self, true);
                lemma_kept_trans(&b0, &bk, self, true);
                crate::mir::unrolling::lemma_param_terms_kept(&bk.graph, &self.graph, ids@);
            }
            let ghost old_ids = ids@;
            ids.push(n);
            proof {
                lemma_param_terms_push(self.graph@, old_ids, n);
            }
            k = k + 1;
        }
        proof {
            assert(rows@.subrange(0, k as int) =~= rows@);
        }
        Ok(ids)
    }

    /// Stores the `n` columns a vector access gives.
    fn insert_columns(&mut self, access: &SymbolAccess, n: usize) -> (r: Vec<NodeId>)
        requires
            old(self).wf(),
            !(lower_columns(old(self).globals, old(self).scope(), *access, n as nat) is Undefined),
        ensures
            final(self).kept(old(self), true),
            all_below(r@, final(self).graph@.len()),
            lower_columns(old(self).globals, old(self).scope(), *access, n as nat) == Lowering::Done(
                crate::mir::subst::param_terms(final(self).graph@, r@),
            ),
    {
        let ghost b0 = *self;
        let ghost c = self.globals;
        let ghost sc = self.scope();
        proof {
            lemma_extends_refl(&self.graph);
            lemma_kept(&b0, self);
        }
        let mut ids: Vec<NodeId> = Vec::new();
        let mut k: usize = 0;
        proof {
            assert(crate::mir::subst::param_terms(self.graph@, ids@) =~= Seq::<Term>::empty());
        }
        while k < n
            invariant
                self.kept(&b0, true),
                b0 == *old(self),
                c == b0.globals,
                sc == b0.scope(),
                k <= n,
                ids@.len() == k,
                all_below(ids@, self.graph@.len()),
                !(lower_columns(c, sc, *access, n as nat) is Undefined),
                lower_columns(c, sc, *access, k as nat) == Lowering::Done(
                    crate::mir::subst::param_terms(self.graph@, ids@),
                ),
            decreases n - k,
        {
            proof {
                if !(lower_columns(c, sc, *access, (k + 1) as nat) is Done) {
                    lemma_columns_prefix(c, sc, *access, n as nat, (k + 1) as nat);
                }
            }
            let step = match access.access_type {
                AccessType::Index(j) => AccessType::Index(j),
                _ => AccessType::Index(k),
            };
            let ghost bk = *self;
            let node = match access.access(step) {
                Some(column) => self.insert_symbol_access(&column),
                None => 0,
            };
            proof {
                lemma_kept_trans(&b0, &bk, self, true);
                crate::mir::unrolling::lemma_param_terms_kept(&bk.graph, &self.graph, ids@);
            }
            let ghost old_ids = ids@;
            ids.push(node);
            proof {
                lemma_param_terms_push(self.graph@, old_ids, node);
            }
            k = k + 1;
        }
        ids
    }

    /// Stores the rows of a vector of vectors of `n` elements; a constant row is stored but
    /// left out of the rows.
    fn insert_rows(&mut self, es: &Vec<Expr>, n: usize) -> (r: Result<Vec<NodeId>, CompileError>)
        requires
            old(self).wf(),
            !(lower_rows(old(self).globals, old(self).scope(), es@, n) is Undefined),
        ensures
            final(self).kept(old(self), r is Ok),
            stored_all(&final(self).graph, r, lower_rows(old(self).globals, old(self).scope(), es@, n)),
        decreases *es,
    {
        let ghost b0 = *self;
        let ghost c = self.globals;
        let ghost sc = self.scope();
        proof {
            lemma_extends_refl(&self.graph);
            lemma_kept(&b0, self);
            assert(es@.subrange(0, 0) =~= Seq::<Expr>::empty());
        }
        let mut ids: Vec<NodeId> = Vec::new();
        let mut k: usize = 0;
        proof {
            assert(crate::mir::subst::param_terms(self.graph@, ids@) =~= Seq::<Term>::empty());
        }
        while k < es.len()
            invariant
                self.kept(&b0, true),
                b0 == *old(self),
                c == b0.globals,
                sc == b0.scope(),
                k <= es@.len(),
                all_below(ids@, self.graph@.len()),
                !(lower_rows(c, sc, es@, n) is Undefined),
                lower_rows(c, sc, es@.subrange(0, k as int), n) == Lowering::Done(
                    crate::mir::subst::param_terms(self.graph@, ids@),
                ),
            decreases es@.len() - k,
        {
            proof {
                assert(es@.subrange(0, k + 1).drop_last() =~= es@.subrange(0, k as int));
                assert(es@.subrange(0, k + 1).last() == es@[k as int]);
                if !(lower_rows(c, sc, es@.subrange(0, k + 1), n) is Done) {
                    lemma_rows_prefix(c, sc, es@, n, k + 1);
                }
            }
            let ghost bk = *self;
            match &es[k] {
                Expr::Const(value) => {
                    let row = self.insert_typed_constant(value);
                    proof {
                        lemma_kept_trans(&b0, &bk, self, true);
                        crate::mir::unrolling::lemma_param_terms_kept(&bk.graph, &self.graph, ids@);
                    }
                    let ghost old_ids = ids@;
                    ids.push(row);
                    proof {
                        lemma_param_terms_push(self.graph@, old_ids, row);
                    }
                },
                Expr::SymbolAccess(access) => {
                    let cols = self.insert_columns(access, n);
                    let ghost b1 = *self;
                    let row = self.store_vector(cols);
                    proof {
                        lemma_kept_trans(&bk, &b1, self, true);
                        lemma_kept_trans(&b0, &bk, self, true);
                        crate::mir::unrolling::lemma_param_terms_kept(&bk.graph, &self.graph, ids@);
                    }
                    let ghost old_ids = ids@;
                    ids.push(row);
                    proof {
                        lemma_param_terms_push(self.graph@, old_ids, row);
                    }
                },
                Expr::Vector(elems) => {
                    let cols = match self.insert_scalar_elems(elems) {
                        Ok(cols) => cols,
                        Err(e) => {
                            proof {
                                lemma_kept_trans(&b0, &bk, self, false);
                            }
                            return Err(e);
                        },
                    };
                    let ghost b1 = *self;
                    let row = self.store_vector(cols);
                    proof {
                        lemma_kept_trans(&bk, &b1, self, true);
                        lemma_kept_trans(&b0, &bk, self, true);
                        crate::mir::unrolling::lemma_param_terms_kept(&bk.graph, &self.graph, ids@);
                    }
                    let ghost old_ids = ids@;
                    ids.push(row);
                    proof {
                        lemma_param_terms_push(self.graph@, old_ids, row);
                    }
                },
                _ => {
                    return Err(CompileError::Failed);
                },
            }
            k = k + 1;
        }
        proof {
            assert(es@.subrange(0, k as int) =~= es@);
        }
        Ok(ids)
    }

    /// Stores the iterables of a comprehension; one that is not a vector is an error.
    fn insert_iterables(&mut self, es: &Vec<Expr>) -> (r: Result<Vec<NodeId>, CompileError>)
        requires
            old(self).wf(),
            !(lower_iterables(old(self).globals, old(self).scope(), es@) is Undefined),
        ensures
            final(self).kept(old(self), r is Ok),
            stored_all(&final(self).graph, r, lower_iterables(old(self).globals, old(self).scope(), es@)),
        decreases *es,
    {
        let ghost b0 = *self;
        let ghost c = self.globals;
        let ghost sc = self.scope();
        proof {
            lemma_extends_refl(&self.graph);
            lemma_kept(&b0, self);
            assert(es@.subrange(0, 0) =~= Seq::<Expr>::empty());
        }
        let mut ids: Vec<NodeId> = Vec::new();
        let mut k: usize = 0;
        proof {
            assert(crate::mir::subst::param_terms(self.graph@, ids@) =~= Seq::<Term>::empty());
        }
        while k < es.len()
            invariant
                self.kept(&b0, true),
                b0 == *old(self),
                c == b0.globals,
                sc == b0.scope(),
                k <= es@.len(),
                ids@.len() == k,
                all_below(ids@, self.graph@.len()),
                !(lower_iterables(c, sc, es@) is Undefined),
                lower_iterables(c, sc, es@.subrange(0, k as int)) == Lowering::Done(
                    crate::mir::subst::param_terms(self.graph@, ids@),
                ),
            decreases es@.len() - k,
        {
            proof {
                assert(es@.subrange(0, k + 1).drop_last() =~= es@.subrange(0, k as int));
                assert(es@.subrange(0, k + 1).last() == es@[k as int]);
                if !(lower_iterables(c, sc, es@.subrange(0, k + 1)) is Done) {
                    lemma_iterables_prefix(c, sc, es@, k + 1);
                }
            }
            let ghost bk = *self;
            let n = match self.insert_expr(&es[k]) {
                Ok(n) => n,
                Err(e) => {
                    proof {
                        lemma_kept_trans(&b0, &bk, self, false);
                    }
                    return Err(e);
                },
            };
            proof {
                lemma_kept_trans(&b0, &bk, self, true);
                crate::mir::unrolling::lemma_param_terms_kept(&bk.graph, &self.graph, ids@);
            }
            let is_vector = match &self.graph.nodes[n] {
                Op::Vector(_) => true,
                _ => false,
            };
            if !is_vector {
                return Err(CompileError::Failed);
            }
            let ghost old_ids = ids@;
            ids.push(n);
            proof {
                lemma_param_terms_push(self.graph@, old_ids, n);
            }
            k = k + 1;
        }
        proof {
            assert(es@.subrange(0, k as int) =~= es@);
        }
        Ok(ids)
    }

    /// Stores a comprehension as a loop: its bindings are bound to its parameters while its
    /// iterables, selector and body are stored; the bindings are restored afterwards.
    fn insert_comprehension(&mut self, lc: &ListComprehension) -> (r: Result<NodeId, CompileError>)
        requires
            old(self).wf(),
            !(lower_comprehension(old(self).globals, old(self).scope(), *lc) is Undefined),
        ensures
            final(self).kept(old(self), r is Ok),
            stored(&final(self).graph, r, lower_comprehension(old(self).globals, old(self).scope(), *lc)),
            r matches Ok(n) ==> old(self).graph@.len() <= n,
        decreases *lc,
    {
        let ghost b0 = *self;
        let saved = self.bindings.len();
        proof {
            lemma_extends_refl(&self.graph);
            assert(self.scope() =~= b0.scope() + bound_params(lc.bindings@.subrange(0, 0)));
        }
        let mut k: usize = 0;
        while k < lc.bindings.len()
            invariant
                self.wf(),
                self.graph.extends(&b0.graph),
                self.globals == b0.globals,
                saved == b0.bindings@.len(),
                k <= lc.bindings@.len(),
                self.bindings@.len() == saved + k,
                self.bindings@.subrange(0, saved as int) == b0.bindings@,
                self.scope() == b0.scope() + bound_params(lc.bindings@.subrange(0, k as int)),
            decreases lc.bindings@.len() - k,
        {
            let ghost bk = *self;
            let param = self.store(Op::Parameter(k, MirType::Felt));
            let ghost bs = *self;
            proof {
                lemma_extends_trans(&b0.graph, &bk.graph, &self.graph);
                lemma_scope_kept(&bk, self);
                assert(term(self.graph@, param as nat) == Term::Parameter(k, MirType::Felt));
            }
            self.bindings.push((lc.bindings[k], param));
            proof {
                assert(self.bindings@.subrange(0, saved as int) =~= bs.bindings@.subrange(
                    0,
                    saved as int,
                ));
                assert(self.scope() =~= bs.scope().push(
                    (lc.bindings@[k as int], Term::Parameter(k, MirType::Felt)),
                ));
                assert(bound_params(lc.bindings@.subrange(0, k + 1)) =~= bound_params(
                    lc.bindings@.subrange(0, k as int),
                ).push((lc.bindings@[k as int], Term::Parameter(k, MirType::Felt))));
                assert(self.scope() =~= b0.scope() + bound_params(lc.bindings@.subrange(0, k + 1)));
            }
            k = k + 1;
        }
        proof {
            assert(lc.bindings@.subrange(0, k as int) =~= lc.bindings@);
        }
        let ghost b1 = *self;
        let its = match self.insert_iterables(&lc.iterables) {
            Ok(its) => its,
            Err(e) => {
                proof {
                    lemma_extends_trans(&b0.graph, &b1.graph, &self.graph);
                }
                return Err(e);
            },
        };
        let ghost b2 = *self;
        let selector = match &lc.selector {
            Some(sel) => match self.insert_scalar_expr(sel) {
                Ok(n) => Some(n),
                Err(e) => {
                    proof {
                        lemma_extends_trans(&b0.graph, &b1.graph, &b2.graph);
                        lemma_extends_trans(&b0.graph, &b2.graph, &self.graph);
                    }
                    return Err(e);
                },
            },
            None => {
                proof {
                    lemma_extends_refl(&self.graph);
                    lemma_kept(&b2, self);
                }
                None
            },
        };
        let ghost b3 = *self;
        proof {
            lemma_kept_trans(&b1, &b2, &b3, true);
        }
        let body = match self.insert_scalar_expr(&lc.body) {
            Ok(n) => n,
            Err(e) => {
                proof {
                    lemma_extends_trans(&b0.graph, &b1.graph, &b3.graph);
                    lemma_extends_trans(&b0.graph, &b3.graph, &self.graph);
                }
                return Err(e);
            },
        };
        let ghost b4 = *self;
        let ghost its_v = its@;
        proof {
            lemma_kept_trans(&b1, &b3, &b4, true);
            lemma_extends_trans(&b2.graph, &b3.graph, &b4.graph);
            crate::mir::unrolling::lemma_param_terms_kept(&b2.graph, &b4.graph, its_v);
        }
        let node = self.store(Op::For(its, body, selector));
        proof {
            lemma_operand_terms(self.graph@, its_v, node as nat);
            crate::mir::unrolling::lemma_param_terms_kept(&b4.graph, &self.graph, its_v);
            lemma_term_kept(&b4.graph, &self.graph, body as nat);
            lemma_extends_trans(&b3.graph, &b4.graph, &self.graph);
            if let Some(sn) = selector {
                lemma_term_kept(&b3.graph, &self.graph, sn as nat);
            }
        }
        self.bindings.truncate(saved);
        proof {
            assert(self.bindings@ =~= b0.bindings@);
            lemma_extends_trans(&b0.graph, &b1.graph, &b4.graph);
            lemma_extends_trans(&b0.graph, &b4.graph, &self.graph);
            lemma_scope_kept(&b0, self);
        }
        Ok(node)
    }

    /// Stores an expression. An access to a local binding is the bound node itself; a let
    /// expression is what its body stores; any other expression is a new node.
    pub fn insert_expr(&mut self, expr: &Expr) -> (r: Result<NodeId, CompileError>)
        requires
            old(self).wf(),
            !(lower_expr(old(self).globals, old(self).scope(), *expr) is Undefined),
        ensures
            final(self).kept(old(self), r is Ok),
            stored(&final(self).graph, r, lower_expr(old(self).globals, old(self).scope(), *expr)),
            r matches Ok(n) ==> match *expr {
                Expr::SymbolAccess(a) => match bound_node(old(self).bindings@, a.name.id()) {
                    Some(b) => n == b,
                    None => old(self).graph@.len() <= n,
                },
                Expr::Let(_) => true,
                _ => old(self).graph@.len() <= n,
            },
        decreases *expr,
    {
        let ghost b0 = *self;
        match expr {
            Expr::Const(value) => Ok(self.insert_typed_constant(value)),
            Expr::Range(range) => Ok(self.insert_range(range)),
            Expr::Vector(es) => {
                if es.len() == 0 {
                    let empty: Vec<u64> = Vec::new();
                    let ghost ev = empty@;
                    let r = self.insert_typed_constant(&ConstantExpr::Vector(empty));
                    proof {
                        assert(ev =~= Seq::<u64>::empty());
                    }
                    return Ok(r);
                }
                match es[0].ty() {
                    Some(Type::Scalar(_)) => {
                        let ids = match self.insert_scalar_elems(es) {
                            Ok(ids) => ids,
                            Err(e) => {
                                return Err(e);
                            },
                        };
                        let ghost b1 = *self;
                        let r = self.store_vector(ids);
                        proof {
                            lemma_kept_trans(&b0, &b1, self, true);
                        }
                        Ok(r)
                    },
                    Some(Type::Vector(_, n)) => {
                        let rows = match self.insert_rows(es, n) {
                            Ok(rows) => rows,
                            Err(e) => {
                                return Err(e);
                            },
                        };
                        let ghost b1 = *self;
                        let r = self.store_matrix(rows);
                        proof {
                            lemma_kept_trans(&b0, &b1, self, true);
                        }
                        Ok(r)
                    },
                    _ => Err(CompileError::Failed),
                }
            },
            Expr::Matrix(rows) => {
                let ids = match self.insert_matrix_rows(rows) {
                    Ok(ids) => ids,
                    Err(e) => {
                        return Err(e);
                    },
                };
                let ghost b1 = *self;
                let r = self.store_matrix(ids);
                proof {
                    lemma_kept_trans(&b0, &b1, self, true);
                }
                Ok(r)
            },
            Expr::SymbolAccess(access) => match self.lookup_binding(access.name.as_ref()) {
                Some(node) => {
                    proof {
                        lemma_extends_refl(&self.graph);
                        lemma_kept(&b0, self);
                    }
                    Ok(node)
                },
                None => Ok(self.insert_symbol_access(access)),
            },
            Expr::Binary(b) => self.insert_binary_expr(b),
            Expr::Call(call) => Ok(self.insert_expr_call(call)),
            Expr::ListComprehension(lc) => self.insert_comprehension(lc),
            Expr::Let(l) => self.expand_let_expr(l),
        }
    }
}

/// `new` is `old` followed by nodes whose trees are `ts`.
pub open spec fn appended(g: Seq<Op>, old: Seq<NodeId>, new: Seq<NodeId>, ts: Seq<Term>) -> bool {
    &&& old.len() <= new.len()
    &&& new.subrange(0, old.len() as int) == old
    &&& crate::mir::subst::param_terms(g, new.subrange(old.len() as int, new.len() as int)) == ts
}

/// `old` is a prefix of `new`.
pub open spec fn is_prefix<T>(old: Seq<T>, new: Seq<T>) -> bool {
    old.len() <= new.len() && new.subrange(0, old.len() as int) == old
}

impl MirBuilder {
    /// The builder after statements were built: nodes and roots were only added, the
    /// declarations are the same, and the bindings are the same where building succeeded.
    pub open spec fn grew(&self, old: &MirBuilder, ok: bool) -> bool {
        &&& self.wf()
        &&& is_prefix(old.graph@, self.graph@)
        &&& self.graph.buses@ == old.graph.buses@
        &&& self.globals == old.globals
        &&& is_prefix(old.graph.boundary_roots@, self.graph.boundary_roots@)
        &&& is_prefix(old.graph.integrity_roots@, self.graph.integrity_roots@)
        &&& ok ==> self.bindings@ == old.bindings@ && self.scope() == old.scope()
    }
}

/// Storing nodes is growing.
proof fn lemma_kept_grew(old: &MirBuilder, new: &MirBuilder, ok: bool)
    requires
        new.kept(old, ok),
    ensures
        new.grew(old, ok),
{
    assert(new.graph.boundary_roots@.subrange(0, old.graph.boundary_roots@.len() as int)
        =~= old.graph.boundary_roots@);
    assert(new.graph.integrity_roots@.subrange(0, old.graph.integrity_roots@.len() as int)
        =~= old.graph.integrity_roots@);
}

proof fn lemma_prefix_push<T>(a: Seq<T>, x: T)
    ensures
        is_prefix(a, a.push(x)),
{
    assert(a.push(x).subrange(0, a.len() as int) =~= a);
}

proof fn lemma_prefix_trans<T>(a: Seq<T>, b: Seq<T>, c: Seq<T>)
    requires
        is_prefix(a, b),
        is_prefix(b, c),
    ensures
        is_prefix(a, c),
{
    assert(c.subrange(0, a.len() as int) =~= b.subrange(0, a.len() as int));
}

/// Growing includes staying the same.
proof fn lemma_grew_refl(b: &MirBuilder)
    requires
        b.wf(),
    ensures
        b.grew(b, true),
{
    assert(b.graph@.subrange(0, b.graph@.len() as int) =~= b.graph@);
    assert(b.graph.boundary_roots@.subrange(0, b.graph.boundary_roots@.len() as int) =~= b.graph.boundary_roots@);
    assert(b.graph.integrity_roots@.subrange(0, b.graph.integrity_roots@.len() as int) =~= b.graph.integrity_roots@);
}

/// Growing is transitive.
proof fn lemma_grew_trans(a: &MirBuilder, b: &MirBuilder, c: &MirBuilder, ok1: bool, ok2: bool)
    requires
        b.grew(a, ok1),
        c.grew(b, ok2),
    ensures
        c.grew(a, ok1 && ok2),
{
    lemma_prefix_trans(a.graph@, b.graph@, c.graph@);
    lemma_prefix_trans(a.graph.boundary_roots@, b.graph.boundary_roots@, c.graph.boundary_roots@);
    lemma_prefix_trans(a.graph.integrity_roots@, b.graph.integrity_roots@, c.graph.integrity_roots@);
}

/// The trees of stored nodes are the same once more nodes are stored.
proof fn lemma_terms_grew(g1: Seq<Op>, g2: Seq<Op>, ids: Seq<NodeId>)
    requires
        is_prefix(g1, g2),
        all_below(ids, g1.len()),
    ensures
        crate::mir::subst::param_terms(g2, ids) == crate::mir::subst::param_terms(g1, ids),
{
    assert forall|k: int| 0 <= k < ids.len() implies crate::mir::subst::param_terms(g2, ids)[k]
        == crate::mir::subst::param_terms(g1, ids)[k] by {
        crate::mir::term::lemma_term_extend(g1, g2, ids[k] as nat);
    }
    assert(crate::mir::subst::param_terms(g2, ids) =~= crate::mir::subst::param_terms(g1, ids));
}

/// Appending in two steps appends both, once the trees of the first step are stable.
proof fn lemma_appended_trans(
    g1: Seq<Op>,
    g2: Seq<Op>,
    a: Seq<NodeId>,
    b: Seq<NodeId>,
    c: Seq<NodeId>,
    t1: Seq<Term>,
    t2: Seq<Term>,
)
    requires
        is_prefix(g1, g2),
        all_below(b, g1.len()),
        appended(g1, a, b, t1),
        appended(g2, b, c, t2),
    ensures
        appended(g2, a, c, t1 + t2),
{
    let mid = b.subrange(a.len() as int, b.len() as int);
    let tail = c.subrange(b.len() as int, c.len() as int);
    assert(c.subrange(0, a.len() as int) =~= b.subrange(0, a.len() as int));
    assert forall|k: int| 0 <= k < mid.len() implies #[trigger] mid[k] < g1.len() by {
        assert(mid[k] == b[a.len() + k]);
    }
    lemma_terms_grew(g1, g2, mid);
    assert(c.subrange(a.len() as int, c.len() as int) =~= mid + tail) by {
        assert forall|k: int| 0 <= k < mid.len() implies c.subrange(a.len() as int, c.len() as int)[k]
            == mid[k] by {
            assert(c.subrange(0, b.len() as int)[a.len() + k] == b[a.len() + k]);
        }
    }
    assert(crate::mir::subst::param_terms(g2, mid + tail) =~= crate::mir::subst::param_terms(
        g2,
        mid,
    ) + crate::mir::subst::param_terms(g2, tail));
}

/// Nothing appended.
proof fn lemma_appended_none(g: Seq<Op>, a: Seq<NodeId>)
    ensures
        appended(g, a, a, Seq::empty()),
{
    assert(a.subrange(0, a.len() as int) =~= a);
    assert(crate::mir::subst::param_terms(g, a.subrange(a.len() as int, a.len() as int)) =~= Seq::<Term>::empty());
}

/// One node appended.
proof fn lemma_appended_one(g: Seq<Op>, a: Seq<NodeId>, n: NodeId)
    ensures
        appended(g, a, a.push(n), seq![term(g, n as nat)]),
{
    assert(a.push(n).subrange(0, a.len() as int) =~= a);
    assert(a.push(n).subrange(a.len() as int, a.len() + 1 as int) =~= seq![n]);
    assert(crate::mir::subst::param_terms(g, seq![n]) =~= seq![term(g, n as nat)]);
}

/// Once a prefix of statements does not build, the statements do not.
proof fn lemma_statements_prefix(
    c: Globals,
    s: Seq<(Identifier, Term)>,
    stmts: Seq<Statement>,
    in_body: bool,
    in_boundary: bool,
    k: int,
)
    requires
        0 <= k <= stmts.len(),
        !(lower_statements(c, s, stmts.subrange(0, k), in_body, in_boundary) is Done),
    ensures
        lower_statements(c, s, stmts, in_body, in_boundary) == lower_statements(
            c,
            s,
            stmts.subrange(0, k),
            in_body,
            in_boundary,
        ),
    decreases stmts.len() - k,
{
    if k == stmts.len() {
        assert(stmts.subrange(0, k) =~= stmts);
    } else {
        assert(stmts.subrange(0, k + 1).drop_last() =~= stmts.subrange(0, k));
        lemma_statements_prefix(c, s, stmts, in_body, in_boundary, k + 1);
    }
}

/// Growing the graph keeps the trees the bindings denote.
proof fn lemma_scope_grew(old: &MirBuilder, new: &MirBuilder)
    requires
        old.wf(),
        is_prefix(old.graph@, new.graph@),
        new.bindings@ == old.bindings@,
    ensures
        new.scope() == old.scope(),
{
    assert forall|k: int| 0 <= k < old.bindings@.len() implies new.scope()[k] == old.scope()[k] by {
        crate::mir::term::lemma_term_extend(old.graph@, new.graph@, old.bindings@[k].1 as nat);
    }
    assert(new.scope() =~= old.scope());
}

/// What building statements did: the body and the roots each grew by the effects.
pub open spec fn built(
    g: &Graph,
    old_g: &Graph,
    old_body: Seq<NodeId>,
    new_body: Seq<NodeId>,
    eff: Effects,
) -> bool {
    &&& appended(g@, old_body, new_body, eff.body)
    &&& appended(g@, old_g.boundary_roots@, g.boundary_roots@, eff.boundary)
    &&& appended(g@, old_g.integrity_roots@, g.integrity_roots@, eff.integrity)
}

/// The owner is of the same kind as before.
pub open spec fn same_owner(old: Owner, new: Owner) -> bool {
    &&& (old is Function) == (new is Function)
    &&& (old is Evaluator) == (new is Evaluator)
    &&& (old is Constraints) == (new is Constraints)
}

impl Owner {
    /// Adds a node to the body.
    fn push(&mut self, node: NodeId)
        requires
            old(self).in_body(),
        ensures
            same_owner(*old(self), *final(self)),
            final(self).body() == old(self).body().push(node),
    {
        match self {
            Owner::Function(b) => b.push(node),
            Owner::Evaluator(b) => b.push(node),
            Owner::Constraints => {},
        }
    }
}

impl MirBuilder {
    /// Makes a node a root of the boundary constraints.
    fn add_boundary_root(&mut self, root: NodeId)
        requires
            old(self).wf(),
            root < old(self).graph@.len(),
        ensures
            final(self).wf(),
            final(self).graph@ == old(self).graph@,
            final(self).graph.buses@ == old(self).graph.buses@,
            final(self).graph.boundary_roots@ == old(self).graph.boundary_roots@.push(root),
            final(self).graph.integrity_roots@ == old(self).graph.integrity_roots@,
            final(self).globals == old(self).globals,
            final(self).bindings@ == old(self).bindings@,
    {
        self.graph.insert_boundary_constraints_root(root);
    }

    /// Makes a node a root of the integrity constraints.
    fn add_integrity_root(&mut self, root: NodeId)
        requires
            old(self).wf(),
            root < old(self).graph@.len(),
        ensures
            final(self).wf(),
            final(self).graph@ == old(self).graph@,
            final(self).graph.buses@ == old(self).graph.buses@,
            final(self).graph.integrity_roots@ == old(self).graph.integrity_roots@.push(root),
            final(self).graph.boundary_roots@ == old(self).graph.boundary_roots@,
            final(self).globals == old(self).globals,
            final(self).bindings@ == old(self).bindings@,
    {
        self.graph.insert_integrity_constraints_root(root);
    }

    /// Builds a statement standing in `parent`, in the boundary constraints or not.
    pub fn build_statement(&mut self, parent: &mut Owner, stmt: &Statement, in_boundary: bool) -> (r: Result<(), CompileError>)
        requires
            old(self).wf(),
            all_below(old(parent).body(), old(self).graph@.len()),
            !(lower_statement(old(self).globals, old(self).scope(), *stmt, old(parent).in_body(), in_boundary) is Undefined),
        ensures
            final(self).grew(old(self), r is Ok),
            same_owner(*old(parent), *final(parent)),
            all_below(final(parent).body(), final(self).graph@.len()),
            match lower_statement(old(self).globals, old(self).scope(), *stmt, old(parent).in_body(), in_boundary) {
                Lowering::Done(eff) => r is Ok && built(&final(self).graph, &old(self).graph, old(parent).body(), final(parent).body(), eff),
                Lowering::Failed => r is Err,
                Lowering::Undefined => true,
            },
        decreases *stmt,
    {
        let ghost b0 = *self;
        let ghost p0 = *parent;
        let ghost in_body = parent.in_body();
        match stmt {
            Statement::Let(l) => {
                let bound = match self.insert_expr(&l.value) {
                    Ok(n) => n,
                    Err(e) => {
                        proof {
                            lemma_kept_grew(&b0, self, false);
                        }
                        return Err(e);
                    },
                };
                let ghost b1 = *self;
                let saved = self.bindings.len();
                self.bindings.push((l.name, bound));
                let ghost b2 = *self;
                proof {
                    lemma_kept_grew(&b0, &b1, true);
                    assert(self.scope() =~= b1.scope().push((l.name, term(self.graph@, bound as nat))));
                    assert(self.graph@.subrange(0, self.graph@.len() as int) =~= self.graph@);
                    assert(self.graph.boundary_roots@.subrange(0, self.graph.boundary_roots@.len() as int)
                        =~= self.graph.boundary_roots@);
                    assert(self.graph.integrity_roots@.subrange(0, self.graph.integrity_roots@.len() as int)
                        =~= self.graph.integrity_roots@);
                    assert(self.grew(&b1, false));
                    lemma_grew_trans(&b0, &b1, self, true, false);
                }
                let r = self.build_statements(parent, &l.body, in_boundary);
                let ghost b3 = *self;
                if r.is_ok() {
                    self.bindings.truncate(saved);
                    proof {
                        assert(self.bindings@ =~= b1.bindings@);
                        lemma_grew_trans(&b0, &b2, &b3, false, true);
                        lemma_prefix_trans(b1.graph@, b2.graph@, self.graph@);
                        lemma_scope_grew(&b1, self);
                        assert(self.wf());
                    }
                } else {
                    proof {
                        lemma_grew_trans(&b0, &b2, self, false, false);
                    }
                }
                r
            },
            Statement::Expr(e) => {
                let node = match self.insert_expr(e) {
                    Ok(n) => n,
                    Err(e) => {
                        proof {
                            lemma_kept_grew(&b0, self, false);
                        }
                        return Err(e);
                    },
                };
                proof {
                    lemma_kept_grew(&b0, self, true);
                }
                parent.push(node);
                proof {
                    lemma_appended_one(self.graph@, p0.body(), node);
                    lemma_appended_none(self.graph@, self.graph.boundary_roots@);
                    lemma_appended_none(self.graph@, self.graph.integrity_roots@);
                }
                Ok(())
            },
            Statement::Enforce(e) => {
                let node = match self.insert_scalar_expr(e) {
                    Ok(n) => n,
                    Err(e) => {
                        proof {
                            lemma_kept_grew(&b0, self, false);
                        }
                        return Err(e);
                    },
                };
                let ghost b1 = *self;
                let is_enf = match &self.graph.nodes[node] {
                    Op::Enf(_) => true,
                    _ => false,
                };
                let to_add = if is_enf {
                    proof {
                        lemma_extends_refl(&self.graph);
                        lemma_kept(&b1, self);
                    }
                    node
                } else {
                    let n = self.store(Op::Enf(node));
                    proof {
                        lemma_term_kept(&b1.graph, &self.graph, node as nat);
                    }
                    n
                };
                let ghost b2 = *self;
                proof {
                    lemma_kept_trans(&b0, &b1, &b2, true);
                    lemma_kept_grew(&b0, &b2, true);
                    assert(term(self.graph@, to_add as nat) == enforced(term(b1.graph@, node as nat)));
                }
                if in_boundary {
                    self.add_boundary_root(to_add);
                    proof {
                        lemma_appended_none(self.graph@, p0.body());
                        lemma_appended_one(self.graph@, b0.graph.boundary_roots@, to_add);
                        lemma_appended_none(self.graph@, self.graph.integrity_roots@);
                        lemma_prefix_push(b2.graph.boundary_roots@, to_add);
                        assert(self.graph@.subrange(0, self.graph@.len() as int) =~= self.graph@);
                        assert(self.graph.integrity_roots@.subrange(0, self.graph.integrity_roots@.len() as int)
                            =~= self.graph.integrity_roots@);
                        assert(self.grew(&b2, true));
                        lemma_grew_trans(&b0, &b2, self, true, true);
                    }
                } else {
                    parent.push(to_add);
                    proof {
                        lemma_appended_one(self.graph@, p0.body(), to_add);
                        lemma_appended_none(self.graph@, self.graph.boundary_roots@);
                        lemma_appended_none(self.graph@, self.graph.integrity_roots@);
                    }
                }
                Ok(())
            },
            Statement::EnforceAll(lc) => {
                let for_node = match self.insert_comprehension(lc) {
                    Ok(n) => n,
                    Err(e) => {
                        proof {
                            lemma_kept_grew(&b0, self, false);
                        }
                        return Err(e);
                    },
                };
                let ghost b1 = *self;
                let enf = self.store(Op::Enf(for_node));
                let ghost b2 = *self;
                proof {
                    lemma_term_kept(&b1.graph, &self.graph, for_node as nat);
                    lemma_kept_trans(&b0, &b1, &b2, true);
                    lemma_kept_grew(&b0, &b2, true);
                    assert(self.graph@.subrange(0, self.graph@.len() as int) =~= self.graph@);
                }
                if in_boundary {
                    self.add_boundary_root(enf);
                    proof {
                        lemma_appended_none(self.graph@, p0.body());
                        lemma_appended_one(self.graph@, b0.graph.boundary_roots@, enf);
                        lemma_appended_none(self.graph@, self.graph.integrity_roots@);
                        lemma_prefix_push(b2.graph.boundary_roots@, enf);
                        assert(self.graph.integrity_roots@.subrange(0, self.graph.integrity_roots@.len() as int)
                            =~= self.graph.integrity_roots@);
                        assert(self.grew(&b2, true));
                        lemma_grew_trans(&b0, &b2, self, true, true);
                    }
                } else {
                    parent.push(enf);
                    self.add_integrity_root(enf);
                    proof {
                        lemma_appended_one(self.graph@, p0.body(), enf);
                        lemma_appended_none(self.graph@, self.graph.boundary_roots@);
                        lemma_appended_one(self.graph@, b0.graph.integrity_roots@, enf);
                        lemma_prefix_push(b2.graph.integrity_roots@, enf);
                        assert(self.graph.boundary_roots@.subrange(0, self.graph.boundary_roots@.len() as int)
                            =~= self.graph.boundary_roots@);
                        assert(self.grew(&b2, true));
                        lemma_grew_trans(&b0, &b2, self, true, true);
                    }
                }
                Ok(())
            },
        }
    }

    /// Builds statements one after the other, standing in `parent`.
    pub fn build_statements(&mut self, parent: &mut Owner, stmts: &Vec<Statement>, in_boundary: bool) -> (r: Result<(), CompileError>)
        requires
            old(self).wf(),
            all_below(old(parent).body(), old(self).graph@.len()),
            !(lower_statements(old(self).globals, old(self).scope(), stmts@, old(parent).in_body(), in_boundary) is Undefined),
        ensures
            final(self).grew(old(self), r is Ok),
            same_owner(*old(parent), *final(parent)),
            all_below(final(parent).body(), final(self).graph@.len()),
            match lower_statements(old(self).globals, old(self).scope(), stmts@, old(parent).in_body(), in_boundary) {
                Lowering::Done(eff) => r is Ok && built(&final(self).graph, &old(self).graph, old(parent).body(), final(parent).body(), eff),
                Lowering::Failed => r is Err,
                Lowering::Undefined => true,
            },
        decreases *stmts,
    {
        let ghost b0 = *self;
        let ghost p0 = *parent;
        let ghost c = self.globals;
        let ghost sc = self.scope();
        let ghost in_body = parent.in_body();
        let ghost mut eff = no_effects();
        proof {
            assert(stmts@.subrange(0, 0) =~= Seq::<Statement>::empty());
            lemma_appended_none(self.graph@, p0.body());
            lemma_appended_none(self.graph@, self.graph.boundary_roots@);
            lemma_appended_none(self.graph@, self.graph.integrity_roots@);
            assert(self.graph@.subrange(0, self.graph@.len() as int) =~= self.graph@);
            assert(self.graph.boundary_roots@.subrange(0, self.graph.boundary_roots@.len() as int)
                =~= self.graph.boundary_roots@);
            assert(self.graph.integrity_roots@.subrange(0, self.graph.integrity_roots@.len() as int)
                =~= self.graph.integrity_roots@);
        }
        let mut k: usize = 0;
        while k < stmts.len()
            invariant
                b0 == *old(self),
                p0 == *old(parent),
                self.grew(&b0, true),
                c == b0.globals,
                sc == b0.scope(),
                in_body == p0.in_body(),
                same_owner(p0, *parent),
                all_below(parent.body(), self.graph@.len()),
                k <= stmts@.len(),
                !(lower_statements(c, sc, stmts@, in_body, in_boundary) is Undefined),
                lower_statements(c, sc, stmts@.subrange(0, k as int), in_body, in_boundary) == Lowering::Done(eff),
                built(&self.graph, &b0.graph, p0.body(), parent.body(), eff),
            decreases stmts@.len() - k,
        {
            proof {
                assert(stmts@.subrange(0, k + 1).drop_last() =~= stmts@.subrange(0, k as int));
                assert(stmts@.subrange(0, k + 1).last() == stmts@[k as int]);
                if !(lower_statements(c, sc, stmts@.subrange(0, k + 1), in_body, in_boundary) is Done) {
                    lemma_statements_prefix(c, sc, stmts@, in_body, in_boundary, k + 1);
                }
            }
            let ghost bk = *self;
            let ghost pk = *parent;
            match self.build_statement(parent, &stmts[k], in_boundary) {
                Ok(()) => {},
                Err(e) => {
                    proof {
                        lemma_grew_trans(&b0, &bk, self, true, false);
                    }
                    return Err(e);
                },
            }
            proof {
                let step = lower_statement(c, sc, stmts@[k as int], in_body, in_boundary)->Done_0;
                lemma_grew_trans(&b0, &bk, self, true, true);
                assert forall|x: int| 0 <= x < bk.graph.boundary_roots@.len() implies #[trigger] bk.graph.boundary_roots@[x] < bk.graph@.len() by {
                }
                lemma_appended_trans(bk.graph@, self.graph@, p0.body(), pk.body(), parent.body(), eff.body, step.body);
                lemma_appended_trans(
                    bk.graph@,
                    self.graph@,
                    b0.graph.boundary_roots@,
                    bk.graph.boundary_roots@,
                    self.graph.boundary_roots@,
                    eff.boundary,
                    step.boundary,
                );
                lemma_appended_trans(
                    bk.graph@,
                    self.graph@,
                    b0.graph.integrity_roots@,
                    bk.graph.integrity_roots@,
                    self.graph.integrity_roots@,
                    eff.integrity,
                    step.integrity,
                );
                eff = then(eff, step);
            }
            k = k + 1;
        }
        proof {
            assert(stmts@.subrange(0, k as int) =~= stmts@);
        }
        Ok(())
    }
}

/// The graph type of a syntax tree type.
pub open spec fn mir_type(t: Type) -> MirType {
    match t {
        Type::Scalar(_) => MirType::Felt,
        Type::Vector(_, n) => MirType::Vector(n),
        Type::Matrix(_, r, c) => MirType::Matrix(r, c),
    }
}

pub fn to_mir_type(t: Type) -> (r: MirType)
    ensures
        r == mir_type(t),
{
    match t {
        Type::Scalar(_) => MirType::Felt,
        Type::Vector(_, n) => MirType::Vector(n),
        Type::Matrix(_, r, c) => MirType::Matrix(r, c),
    }
}

/// The parameters of a function, bound to their names in its body.
pub open spec fn param_scope(params: Seq<(Identifier, Type)>) -> Seq<(Identifier, Term)> {
    Seq::new(params.len(), |i: int| (params[i].0, Term::Parameter(i as usize, mir_type(params[i].1))))
}

/// The columns an evaluator takes in one segment: each binding's name and its columns.
pub open spec fn segment_params(seg: TraceSegment) -> Seq<(Identifier, TraceAccessBinding)> {
    Seq::new(
        seg.bindings@.len(),
        |j: int|
            (
                seg.bindings@[j].name.unwrap(),
                TraceAccessBinding { segment: seg.id, offset: seg.bindings@[j].offset, size: seg.bindings@[j].size },
            ),
    )
}

/// The columns an evaluator takes, segment after segment.
pub open spec fn evaluator_params(segs: Seq<TraceSegment>) -> Seq<(Identifier, TraceAccessBinding)>
    decreases segs.len(),
{
    if segs.len() == 0 {
        Seq::empty()
    } else {
        evaluator_params(segs.drop_last()) + segment_params(segs.last())
    }
}

/// Every column binding an evaluator takes has a name.
pub open spec fn params_named(segs: Seq<TraceSegment>) -> bool {
    forall|i: int, j: int|
        0 <= i < segs.len() && 0 <= j < segs[i].bindings@.len() ==> (#[trigger] segs[i].bindings@[j]).name is Some
}

/// The columns an evaluator takes, bound to their names in its body.
pub open spec fn evaluator_scope(segs: Seq<TraceSegment>) -> Seq<(Identifier, Term)> {
    evaluator_params(segs).map_values(
        |p: (Identifier, TraceAccessBinding)| (p.0, leaf(MirValue::TraceAccessBinding(p.1))),
    )
}

/// A function stored in the graph: its parameters, its result and its body.
pub struct FunctionBody {
    pub params: Vec<NodeId>,
    pub result: NodeId,
    pub body: Vec<NodeId>,
}

impl MirBuilder {
    /// Stores a function: its parameters are bound to their names while its body is built.
    pub fn insert_function_body(&mut self, func: &Function) -> (r: Result<FunctionBody, CompileError>)
        requires
            old(self).wf(),
            !(lower_statements(
                old(self).globals,
                old(self).scope() + param_scope(func.params@),
                func.body@,
                true,
                false,
            ) is Undefined),
        ensures
            final(self).grew(old(self), r is Ok),
            match lower_statements(
                old(self).globals,
                old(self).scope() + param_scope(func.params@),
                func.body@,
                true,
                false,
            ) {
                Lowering::Done(eff) => r matches Ok(f) && all_below(f.params@, final(self).graph@.len())
                    && crate::mir::subst::param_terms(final(self).graph@, f.params@) == param_scope(
                    func.params@,
                ).map_values(|b: (Identifier, Term)| b.1) && f.result < final(self).graph@.len()
                    && term(final(self).graph@, f.result as nat) == Term::Parameter(0, mir_type(func.return_type))
                    && all_below(f.body@, final(self).graph@.len())
                    && built(&final(self).graph, &old(self).graph, Seq::empty(), f.body@, eff),
                Lowering::Failed => r is Err,
                Lowering::Undefined => true,
            },
    {
        let ghost b0 = *self;
        let saved = self.bindings.len();
        let mut params: Vec<NodeId> = Vec::new();
        proof {
            assert(self.graph@.subrange(0, self.graph@.len() as int) =~= self.graph@);
            assert(self.graph.boundary_roots@.subrange(0, self.graph.boundary_roots@.len() as int)
                =~= self.graph.boundary_roots@);
            assert(self.graph.integrity_roots@.subrange(0, self.graph.integrity_roots@.len() as int)
                =~= self.graph.integrity_roots@);
            assert(self.scope() =~= b0.scope() + param_scope(func.params@.subrange(0, 0)));
            assert(crate::mir::subst::param_terms(self.graph@, params@) =~= Seq::<Term>::empty());
        }
        let mut k: usize = 0;
        while k < func.params.len()
            invariant
                b0 == *old(self),
                self.grew(&b0, false),
                self.graph.boundary_roots@ == b0.graph.boundary_roots@,
                self.graph.integrity_roots@ == b0.graph.integrity_roots@,
                saved == b0.bindings@.len(),
                k <= func.params@.len(),
                self.bindings@.len() == saved + k,
                self.bindings@.subrange(0, saved as int) == b0.bindings@,
                self.scope() == b0.scope() + param_scope(func.params@.subrange(0, k as int)),
                params@.len() == k,
                all_below(params@, self.graph@.len()),
                crate::mir::subst::param_terms(self.graph@, params@) == param_scope(
                    func.params@.subrange(0, k as int),
                ).map_values(|b: (Identifier, Term)| b.1),
            decreases func.params@.len() - k,
        {
            let (name, ty) = func.params[k];
            let ghost bk = *self;
            let param = self.store(Op::Parameter(k, to_mir_type(ty)));
            let ghost bs = *self;
            proof {
                lemma_kept_grew(&bk, self, true);
                lemma_grew_trans(&b0, &bk, self, false, true);
                crate::mir::unrolling::lemma_param_terms_kept(&bk.graph, &self.graph, params@);
            }
            self.bindings.push((name, param));
            let ghost old_params = params@;
            params.push(param);
            proof {
                lemma_param_terms_push(self.graph@, old_params, param);
                assert(self.bindings@.subrange(0, saved as int) =~= bs.bindings@.subrange(0, saved as int));
                assert(param_scope(func.params@.subrange(0, k + 1)) =~= param_scope(
                    func.params@.subrange(0, k as int),
                ).push((name, Term::Parameter(k, mir_type(ty)))));
                assert(self.scope() =~= bs.scope().push((name, Term::Parameter(k, mir_type(ty)))));
                assert(param_scope(func.params@.subrange(0, k + 1)).map_values(|b: (Identifier, Term)| b.1)
                    =~= param_scope(func.params@.subrange(0, k as int)).map_values(
                    |b: (Identifier, Term)| b.1,
                ).push(Term::Parameter(k, mir_type(ty))));
            }
            k = k + 1;
        }
        proof {
            assert(func.params@.subrange(0, k as int) =~= func.params@);
        }
        let ghost bp = *self;
        let result = self.store(Op::Parameter(0, to_mir_type(func.return_type)));
        let ghost br = *self;
        proof {
            lemma_kept_grew(&bp, self, true);
            lemma_grew_trans(&b0, &bp, self, false, true);
            crate::mir::unrolling::lemma_param_terms_kept(&bp.graph, &self.graph, params@);
        }
        let mut owner = Owner::Function(Vec::new());
        let built_body = self.build_statements(&mut owner, &func.body, false);
        proof {
            lemma_grew_trans(&b0, &br, self, false, built_body is Ok);
            lemma_terms_grew(br.graph@, self.graph@, params@);
            crate::mir::term::lemma_term_extend(br.graph@, self.graph@, result as nat);
        }
        if built_body.is_err() {
            return Err(CompileError::Failed);
        }
        self.bindings.truncate(saved);
        proof {
            assert(self.bindings@ =~= b0.bindings@);
            lemma_scope_grew(&b0, self);
        }
        let body = match owner {
            Owner::Function(body) => body,
            _ => Vec::new(),
        };
        Ok(FunctionBody { params, result, body })
    }
}

impl MirBuilder {
    /// Stores an evaluator: each column binding it takes is stored as a value, bound to its
    /// name and put first in its body, while its body is built.
    pub fn insert_evaluator_function_body(&mut self, ev: &EvaluatorFunction) -> (r: Result<Vec<NodeId>, CompileError>)
        requires
            old(self).wf(),
            params_named(ev.params@),
            !(lower_statements(
                old(self).globals,
                old(self).scope() + evaluator_scope(ev.params@),
                ev.body@,
                true,
                false,
            ) is Undefined),
        ensures
            final(self).grew(old(self), r is Ok),
            match lower_statements(
                old(self).globals,
                old(self).scope() + evaluator_scope(ev.params@),
                ev.body@,
                true,
                false,
            ) {
                Lowering::Done(eff) => r matches Ok(body) && all_below(body@, final(self).graph@.len())
                    && built(
                    &final(self).graph,
                    &old(self).graph,
                    Seq::empty(),
                    body@,
                    Effects {
                        body: evaluator_scope(ev.params@).map_values(|b: (Identifier, Term)| b.1) + eff.body,
                        ..eff
                    },
                ),
                Lowering::Failed => r is Err,
                Lowering::Undefined => true,
            },
    {
        let ghost b0 = *self;
        let ghost segs = ev.params@;
        let saved = self.bindings.len();
        let mut body: Vec<NodeId> = Vec::new();
        proof {
            assert(self.graph@.subrange(0, self.graph@.len() as int) =~= self.graph@);
            assert(self.graph.boundary_roots@.subrange(0, self.graph.boundary_roots@.len() as int)
                =~= self.graph.boundary_roots@);
            assert(self.graph.integrity_roots@.subrange(0, self.graph.integrity_roots@.len() as int)
                =~= self.graph.integrity_roots@);
            assert(segs.subrange(0, 0) =~= Seq::<TraceSegment>::empty());
            assert(self.scope() =~= b0.scope() + evaluator_scope(segs.subrange(0, 0)));
            assert(crate::mir::subst::param_terms(self.graph@, body@) =~= Seq::<Term>::empty());
        }
        let mut i: usize = 0;
        while i < ev.params.len()
            invariant
                b0 == *old(self),
                segs == ev.params@,
                params_named(segs),
                self.grew(&b0, false),
                self.graph.boundary_roots@ == b0.graph.boundary_roots@,
                self.graph.integrity_roots@ == b0.graph.integrity_roots@,
                saved == b0.bindings@.len(),
                i <= segs.len(),
                self.bindings@.len() == saved + body@.len(),
                self.bindings@.subrange(0, saved as int) == b0.bindings@,
                self.scope() == b0.scope() + evaluator_scope(segs.subrange(0, i as int)),
                all_below(body@, self.graph@.len()),
                crate::mir::subst::param_terms(self.graph@, body@) == evaluator_scope(
                    segs.subrange(0, i as int),
                ).map_values(|b: (Identifier, Term)| b.1),
            decreases segs.len() - i,
        {
            let segment = &ev.params[i];
            let ghost before = evaluator_params(segs.subrange(0, i as int));
            let mut j: usize = 0;
            proof {
                assert(segment_params(*segment).subrange(0, 0) =~= Seq::<(Identifier, TraceAccessBinding)>::empty());
                assert(evaluator_scope(segs.subrange(0, i as int)) =~= (before + segment_params(
                    *segment,
                ).subrange(0, 0)).map_values(
                    |p: (Identifier, TraceAccessBinding)| (p.0, leaf(MirValue::TraceAccessBinding(p.1))),
                ));
            }
            while j < segment.bindings.len()
                invariant
                    b0 == *old(self),
                    segs == ev.params@,
                    params_named(segs),
                    i < segs.len(),
                    *segment == segs[i as int],
                    before == evaluator_params(segs.subrange(0, i as int)),
                    self.grew(&b0, false),
                    self.graph.boundary_roots@ == b0.graph.boundary_roots@,
                    self.graph.integrity_roots@ == b0.graph.integrity_roots@,
                    saved == b0.bindings@.len(),
                    j <= segment.bindings@.len(),
                    self.bindings@.len() == saved + body@.len(),
                    self.bindings@.subrange(0, saved as int) == b0.bindings@,
                    self.scope() == b0.scope() + (before + segment_params(*segment).subrange(
                        0,
                        j as int,
                    )).map_values(
                        |p: (Identifier, TraceAccessBinding)| (p.0, leaf(MirValue::TraceAccessBinding(p.1))),
                    ),
                    all_below(body@, self.graph@.len()),
                    crate::mir::subst::param_terms(self.graph@, body@) == (before + segment_params(
                        *segment,
                    ).subrange(0, j as int)).map_values(
                        |p: (Identifier, TraceAccessBinding)| (p.0, leaf(MirValue::TraceAccessBinding(p.1))),
                    ).map_values(|b: (Identifier, Term)| b.1),
                decreases segment.bindings@.len() - j,
            {
                let binding = segment.bindings[j];
                proof {
                    assert(segs[i as int].bindings@[j as int].name is Some);
                }
                let name = binding.name.unwrap();
                let tab = TraceAccessBinding { segment: segment.id, offset: binding.offset, size: binding.size };
                let ghost bk = *self;
                let node = self.store_value(MirValue::TraceAccessBinding(tab));
                let ghost bs = *self;
                proof {
                    lemma_kept_grew(&bk, self, true);
                    lemma_grew_trans(&b0, &bk, self, false, true);
                    crate::mir::unrolling::lemma_param_terms_kept(&bk.graph, &self.graph, body@);
                }
                self.bindings.push((name, node));
                let ghost old_body = body@;
                body.push(node);
                proof {
                    lemma_param_terms_push(self.graph@, old_body, node);
                    assert(self.bindings@.subrange(0, saved as int) =~= bs.bindings@.subrange(0, saved as int));
                    let f = |p: (Identifier, TraceAccessBinding)| (p.0, leaf(MirValue::TraceAccessBinding(p.1)));
                    assert(segment_params(*segment).subrange(0, j + 1) =~= segment_params(*segment).subrange(
                        0,
                        j as int,
                    ).push((name, tab)));
                    assert((before + segment_params(*segment).subrange(0, j + 1)).map_values(f) =~= (before
                        + segment_params(*segment).subrange(0, j as int)).map_values(f).push(
                        (name, leaf(MirValue::TraceAccessBinding(tab))),
                    ));
                    assert(self.scope() =~= bs.scope().push((name, leaf(MirValue::TraceAccessBinding(tab)))));
                    assert((before + segment_params(*segment).subrange(0, j + 1)).map_values(f).map_values(
                        |b: (Identifier, Term)| b.1,
                    ) =~= (before + segment_params(*segment).subrange(0, j as int)).map_values(f).map_values(
                        |b: (Identifier, Term)| b.1,
                    ).push(leaf(MirValue::TraceAccessBinding(tab))));
                }
                j = j + 1;
            }
            proof {
                assert(segment_params(*segment).subrange(0, j as int) =~= segment_params(*segment));
                assert(segs.subrange(0, i + 1).drop_last() =~= segs.subrange(0, i as int));
                assert(evaluator_params(segs.subrange(0, i + 1)) == before + segment_params(*segment));
            }
            i = i + 1;
        }
        proof {
            assert(segs.subrange(0, i as int) =~= segs);
        }
        let ghost bp = *self;
        let ghost pre = body@;
        let mut owner = Owner::Evaluator(body);
        let built_body = self.build_statements(&mut owner, &ev.body, false);
        proof {
            lemma_grew_trans(&b0, &bp, self, false, built_body is Ok);
        }
        if built_body.is_err() {
            return Err(CompileError::Failed);
        }
        self.bindings.truncate(saved);
        proof {
            assert(self.bindings@ =~= b0.bindings@);
            lemma_scope_grew(&b0, self);
            let eff = lower_statements(b0.globals, b0.scope() + evaluator_scope(segs), ev.body@, true, false)->Done_0;
            lemma_appended_none(bp.graph@, Seq::<NodeId>::empty());
            assert(appended(bp.graph@, Seq::empty(), pre, evaluator_scope(segs).map_values(|b: (Identifier, Term)| b.1))) by {
                assert(pre.subrange(0, pre.len() as int) =~= pre);
                assert(pre.subrange(0, 0) =~= Seq::<NodeId>::empty());
            }
            lemma_appended_trans(bp.graph@, self.graph@, Seq::empty(), pre, owner.body(), evaluator_scope(segs).map_values(|b: (Identifier, Term)| b.1), eff.body);
        }
        let body = match owner {
            Owner::Evaluator(body) => body,
            _ => Vec::new(),
        };
        Ok(body)
    }
}


/// The functions and evaluators of a program, by index: the functions first.
pub open spec fn callables_of(
    fs: Seq<(Identifier, Function)>,
    es: Seq<(Identifier, EvaluatorFunction)>,
) -> Seq<(Identifier, bool)> {
    fs.map_values(|f: (Identifier, Function)| (f.0, true)) + es.map_values(
        |e: (Identifier, EvaluatorFunction)| (e.0, false),
    )
}

/// What building the body of a function adds.
pub open spec fn function_effects(c: Globals, f: Function) -> Lowering<Effects> {
    lower_statements(c, param_scope(f.params@), f.body@, true, false)
}

/// What building the body of an evaluator adds; every column binding it takes has a name.
pub open spec fn evaluator_effects(c: Globals, e: EvaluatorFunction) -> Lowering<Effects> {
    if params_named(e.params@) {
        lower_statements(c, evaluator_scope(e.params@), e.body@, true, false)
    } else {
        Lowering::Undefined
    }
}

/// What building functions, one after the other, adds.
pub open spec fn functions_effects(c: Globals, fs: Seq<(Identifier, Function)>) -> Lowering<Effects>
    decreases fs.len(),
{
    if fs.len() == 0 {
        Lowering::Done(no_effects())
    } else {
        match functions_effects(c, fs.drop_last()) {
            Lowering::Done(a) => match function_effects(c, fs.last().1) {
                Lowering::Done(b) => Lowering::Done(then(a, b)),
                o => o,
            },
            o => o,
        }
    }
}

/// What building evaluators, one after the other, adds.
pub open spec fn evaluators_effects(c: Globals, es: Seq<(Identifier, EvaluatorFunction)>) -> Lowering<
    Effects,
>
    decreases es.len(),
{
    if es.len() == 0 {
        Lowering::Done(no_effects())
    } else {
        match evaluators_effects(c, es.drop_last()) {
            Lowering::Done(a) => match evaluator_effects(c, es.last().1) {
                Lowering::Done(b) => Lowering::Done(then(a, b)),
                o => o,
            },
            o => o,
        }
    }
}

/// What building a program adds: its functions, its evaluators, its boundary constraints and
/// its integrity constraints, in this order.
pub open spec fn program_effects(c: Globals, p: Program) -> Lowering<Effects> {
    match functions_effects(c, p.functions@) {
        Lowering::Done(a) => match evaluators_effects(c, p.evaluators@) {
            Lowering::Done(b) => match lower_statements(c, Seq::empty(), p.boundary_constraints@, false, true) {
                Lowering::Done(d) => match lower_statements(
                    c,
                    Seq::empty(),
                    p.integrity_constraints@,
                    false,
                    false,
                ) {
                    Lowering::Done(e) => Lowering::Done(then(then(then(a, b), d), e)),
                    o => o,
                },
                o => o,
            },
            o => o,
        },
        o => o,
    }
}

/// The declarations a program's names refer to.
pub open spec fn globals_of(p: Program) -> Globals {
    Globals {
        random_values: p.random_values,
        trace_columns: p.trace_columns,
        public_inputs: p.public_inputs,
        periodic_columns: p.periodic_columns,
        callables: Ghost(callables_of(p.functions@, p.evaluators@)),
    }
}

/// The number of random values a program declares, as a 16-bit count.
pub open spec fn random_count(p: Program) -> u16 {
    match p.random_values {
        Some(rv) => rv.size as u16,
        None => 0,
    }
}

proof fn lemma_functions_prefix(c: Globals, fs: Seq<(Identifier, Function)>, k: int)
    requires
        0 <= k <= fs.len(),
        !(functions_effects(c, fs.subrange(0, k)) is Done),
    ensures
        functions_effects(c, fs) == functions_effects(c, fs.subrange(0, k)),
    decreases fs.len() - k,
{
    if k == fs.len() {
        assert(fs.subrange(0, k) =~= fs);
    } else {
        assert(fs.subrange(0, k + 1).drop_last() =~= fs.subrange(0, k));
        lemma_functions_prefix(c, fs, k + 1);
    }
}

proof fn lemma_evaluators_prefix(c: Globals, es: Seq<(Identifier, EvaluatorFunction)>, k: int)
    requires
        0 <= k <= es.len(),
        !(evaluators_effects(c, es.subrange(0, k)) is Done),
    ensures
        evaluators_effects(c, es) == evaluators_effects(c, es.subrange(0, k)),
    decreases es.len() - k,
{
    if k == es.len() {
        assert(es.subrange(0, k) =~= es);
    } else {
        assert(es.subrange(0, k + 1).drop_last() =~= es.subrange(0, k));
        lemma_evaluators_prefix(c, es, k + 1);
    }
}

/// A lowered program: the graph with its constraints, and the functions and evaluators
/// stored in it.
pub struct LoweredProgram {
    pub mir: Mir,
    pub functions: Vec<FunctionBody>,
    pub evaluators: Vec<Vec<NodeId>>,
}

/// What a lowered program holds when every part of the program lowered: the roots of its
/// constraints are the trees the parts added, in order, and each function and evaluator body
/// holds the trees of its statements (after, for an evaluator, the columns it takes).
pub open spec fn lowered(p: Program, lp: LoweredProgram, eff: Effects) -> bool {
    let c = globals_of(p);
    let g = lp.mir.constraint_graph;
    &&& lp.mir.name@ == p.name@
    &&& lp.mir.num_random_values == random_count(p)
    &&& g.wf()
    &&& g.buses@.len() == 0
    &&& crate::mir::subst::param_terms(g@, g.boundary_roots@) == eff.boundary
    &&& crate::mir::subst::param_terms(g@, g.integrity_roots@) == eff.integrity
    &&& lp.functions@.len() == p.functions@.len()
    &&& forall|i: int|
        0 <= i < p.functions@.len() ==> all_below(#[trigger] lp.functions@[i].body@, g@.len())
            && crate::mir::subst::param_terms(g@, lp.functions@[i].body@) == function_effects(
            c,
            p.functions@[i].1,
        )->Done_0.body
    &&& lp.evaluators@.len() == p.evaluators@.len()
    &&& forall|i: int|
        0 <= i < p.evaluators@.len() ==> all_below(#[trigger] lp.evaluators@[i]@, g@.len())
            && crate::mir::subst::param_terms(g@, lp.evaluators@[i]@) == evaluator_scope(
            p.evaluators@[i].1.params@,
        ).map_values(|b: (Identifier, Term)| b.1) + evaluator_effects(c, p.evaluators@[i].1)->Done_0.body
}

/// The pass that lowers the syntax tree of a program into the constraint graph.
pub struct AstToMir {}

impl AstToMir {
    pub fn new() -> (r: AstToMir) {
        AstToMir {}
    }

    /// Lowers a program: its functions, then its evaluators, then its boundary constraints
    /// and its integrity constraints.
    pub fn run(&mut self, program: Program) -> (r: Result<LoweredProgram, CompileError>)
        requires
            !(program_effects(globals_of(program), program) is Undefined),
        ensures
            match program_effects(globals_of(program), program) {
                Lowering::Done(eff) => r matches Ok(lp) && lowered(program, lp, eff),
                Lowering::Failed => r is Err,
                Lowering::Undefined => true,
            },
    {
        let ghost p = program;
        let Program {
            name,
            random_values,
            trace_columns,
            public_inputs,
            periodic_columns,
            functions,
            evaluators,
            boundary_constraints,
            integrity_constraints,
        } = program;
        let num_random_values: u16 = match &random_values {
            Some(rv) => rv.size as u16,
            None => 0,
        };
        let mut callables: Vec<(Identifier, bool)> = Vec::new();
        let mut k: usize = 0;
        while k < functions.len()
            invariant
                k <= functions@.len(),
                callables@ == functions@.subrange(0, k as int).map_values(
                    |f: (Identifier, Function)| (f.0, true),
                ),
            decreases functions@.len() - k,
        {
            callables.push((functions[k].0, true));
            proof {
                assert(functions@.subrange(0, k + 1).map_values(|f: (Identifier, Function)| (f.0, true))
                    =~= functions@.subrange(0, k as int).map_values(
                    |f: (Identifier, Function)| (f.0, true),
                ).push((functions@[k as int].0, true)));
            }
            k = k + 1;
        }
        let mut k: usize = 0;
        proof {
            assert(functions@.subrange(0, functions@.len() as int) =~= functions@);
        }
        while k < evaluators.len()
            invariant
                k <= evaluators@.len(),
                callables@ == functions@.map_values(|f: (Identifier, Function)| (f.0, true))
                    + evaluators@.subrange(0, k as int).map_values(
                    |e: (Identifier, EvaluatorFunction)| (e.0, false),
                ),
            decreases evaluators@.len() - k,
        {
            callables.push((evaluators[k].0, false));
            proof {
                assert(evaluators@.subrange(0, k + 1).map_values(
                    |e: (Identifier, EvaluatorFunction)| (e.0, false),
                ) =~= evaluators@.subrange(0, k as int).map_values(
                    |e: (Identifier, EvaluatorFunction)| (e.0, false),
                ).push((evaluators@[k as int].0, false)));
            }
            k = k + 1;
        }
        proof {
            assert(evaluators@.subrange(0, evaluators@.len() as int) =~= evaluators@);
        }
        let mut builder = MirBuilder::new(
            random_values,
            trace_columns,
            public_inputs,
            periodic_columns,
            callables,
        );
        let ghost c = builder.globals;
        let ghost b0 = builder;
        proof {
            assert(c == globals_of(p));
            assert(builder.scope() =~= Seq::<(Identifier, Term)>::empty());
        }
        let mut lowered_functions: Vec<FunctionBody> = Vec::new();
        let ghost mut acc = no_effects();
        proof {
            assert(functions@.subrange(0, 0) =~= Seq::<(Identifier, Function)>::empty());
            lemma_appended_none(builder.graph@, Seq::<NodeId>::empty());
            assert(builder.graph.boundary_roots@ =~= Seq::<NodeId>::empty());
            assert(builder.graph.integrity_roots@ =~= Seq::<NodeId>::empty());
            assert(builder.graph@.subrange(0, builder.graph@.len() as int) =~= builder.graph@);
            assert(builder.graph.boundary_roots@.subrange(0, 0) =~= builder.graph.boundary_roots@);
            assert(builder.graph.integrity_roots@.subrange(0, 0) =~= builder.graph.integrity_roots@);
        }
        let mut k: usize = 0;
        while k < functions.len()
            invariant
                c == globals_of(p),
                p == program,
                b0.globals == c,
                functions@ == p.functions@,
                builder.grew(&b0, true),
                builder.bindings@.len() == 0,
                b0.graph.boundary_roots@.len() == 0,
                b0.graph.integrity_roots@.len() == 0,
                builder.scope() == Seq::<(Identifier, Term)>::empty(),
                k <= functions@.len(),
                !(program_effects(c, p) is Undefined),
                functions_effects(c, functions@.subrange(0, k as int)) == Lowering::Done(acc),
                appended(builder.graph@, Seq::empty(), builder.graph.boundary_roots@, acc.boundary),
                appended(builder.graph@, Seq::empty(), builder.graph.integrity_roots@, acc.integrity),
                lowered_functions@.len() == k,
                forall|i: int|
                    0 <= i < k ==> all_below(#[trigger] lowered_functions@[i].body@, builder.graph@.len())
                        && crate::mir::subst::param_terms(builder.graph@, lowered_functions@[i].body@)
                        == function_effects(c, functions@[i].1)->Done_0.body,
            decreases functions@.len() - k,
        {
            proof {
                assert(functions@.subrange(0, k + 1).drop_last() =~= functions@.subrange(0, k as int));
                assert(functions@.subrange(0, k + 1).last() == functions@[k as int]);
                if !(functions_effects(c, functions@.subrange(0, k + 1)) is Done) {
                    lemma_functions_prefix(c, functions@, k + 1);
                }
                assert(builder.scope() + param_scope(functions@[k as int].1.params@) =~= param_scope(
                    functions@[k as int].1.params@,
                ));
            }
            let ghost bk = builder;
            let f = match builder.insert_function_body(&functions[k].1) {
                Ok(f) => f,
                Err(e) => {
                    return Err(e);
                },
            };
            proof {
                let step = function_effects(c, functions@[k as int].1)->Done_0;
                lemma_grew_trans(&b0, &bk, &builder, true, true);
                assert forall|x: int| 0 <= x < bk.graph.boundary_roots@.len() implies #[trigger] bk.graph.boundary_roots@[x] < bk.graph@.len() by {}
                lemma_appended_trans(bk.graph@, builder.graph@, Seq::empty(), bk.graph.boundary_roots@, builder.graph.boundary_roots@, acc.boundary, step.boundary);
                lemma_appended_trans(bk.graph@, builder.graph@, Seq::empty(), bk.graph.integrity_roots@, builder.graph.integrity_roots@, acc.integrity, step.integrity);
                assert forall|i: int| 0 <= i < k implies all_below(#[trigger] lowered_functions@[i].body@, builder.graph@.len())
                    && crate::mir::subst::param_terms(builder.graph@, lowered_functions@[i].body@)
                    == function_effects(c, functions@[i].1)->Done_0.body by {
                    lemma_terms_grew(bk.graph@, builder.graph@, lowered_functions@[i].body@);
                }
                assert(f.body@.subrange(0, f.body@.len() as int) =~= f.body@);
                acc = then(acc, step);
            }
            lowered_functions.push(f);
            k = k + 1;
        }
        proof {
            assert(functions@.subrange(0, k as int) =~= functions@);
        }
        let ghost acc_f = acc;
        let mut lowered_evaluators: Vec<Vec<NodeId>> = Vec::new();
        let ghost mut acc = no_effects();
        let ghost bf = builder;
        proof {
            lemma_grew_refl(&builder);
            assert(evaluators@.subrange(0, 0) =~= Seq::<(Identifier, EvaluatorFunction)>::empty());
            assert(acc_f.boundary + acc.boundary =~= acc_f.boundary);
            assert(acc_f.integrity + acc.integrity =~= acc_f.integrity);
        }
        let mut k: usize = 0;
        while k < evaluators.len()
            invariant
                c == globals_of(p),
                p == program,
                b0.globals == c,
                functions@ == p.functions@,
                evaluators@ == p.evaluators@,
                builder.grew(&b0, true),
                builder.grew(&bf, true),
                builder.bindings@.len() == 0,
                b0.graph.boundary_roots@.len() == 0,
                b0.graph.integrity_roots@.len() == 0,
                builder.scope() == Seq::<(Identifier, Term)>::empty(),
                k <= evaluators@.len(),
                !(program_effects(c, p) is Undefined),
                functions_effects(c, functions@) == Lowering::Done(acc_f),
                evaluators_effects(c, evaluators@.subrange(0, k as int)) == Lowering::Done(acc),
                appended(builder.graph@, Seq::empty(), builder.graph.boundary_roots@, acc_f.boundary + acc.boundary),
                appended(builder.graph@, Seq::empty(), builder.graph.integrity_roots@, acc_f.integrity + acc.integrity),
                lowered_functions@.len() == functions@.len(),
                forall|i: int|
                    0 <= i < functions@.len() ==> all_below(#[trigger] lowered_functions@[i].body@, bf.graph@.len())
                        && crate::mir::subst::param_terms(bf.graph@, lowered_functions@[i].body@)
                        == function_effects(c, functions@[i].1)->Done_0.body,
                lowered_evaluators@.len() == k,
                forall|i: int|
                    0 <= i < k ==> all_below(#[trigger] lowered_evaluators@[i]@, builder.graph@.len())
                        && crate::mir::subst::param_terms(builder.graph@, lowered_evaluators@[i]@)
                        == evaluator_scope(evaluators@[i].1.params@).map_values(|b: (Identifier, Term)| b.1)
                        + evaluator_effects(c, evaluators@[i].1)->Done_0.body,
            decreases evaluators@.len() - k,
        {
            proof {
                assert(evaluators@.subrange(0, k + 1).drop_last() =~= evaluators@.subrange(0, k as int));
                assert(evaluators@.subrange(0, k + 1).last() == evaluators@[k as int]);
                if !(evaluators_effects(c, evaluators@.subrange(0, k + 1)) is Done) {
                    lemma_evaluators_prefix(c, evaluators@, k + 1);
                }
                assert(builder.scope() + evaluator_scope(evaluators@[k as int].1.params@) =~= evaluator_scope(
                    evaluators@[k as int].1.params@,
                ));
            }
            let ghost bk = builder;
            let body = match builder.insert_evaluator_function_body(&evaluators[k].1) {
                Ok(body) => body,
                Err(e) => {
                    return Err(e);
                },
            };
            proof {
                let step = evaluator_effects(c, evaluators@[k as int].1)->Done_0;
                lemma_grew_trans(&b0, &bk, &builder, true, true);
                lemma_grew_trans(&bf, &bk, &builder, true, true);
                assert forall|x: int| 0 <= x < bk.graph.boundary_roots@.len() implies #[trigger] bk.graph.boundary_roots@[x] < bk.graph@.len() by {}
                lemma_appended_trans(bk.graph@, builder.graph@, Seq::empty(), bk.graph.boundary_roots@, builder.graph.boundary_roots@, acc_f.boundary + acc.boundary, step.boundary);
                lemma_appended_trans(bk.graph@, builder.graph@, Seq::empty(), bk.graph.integrity_roots@, builder.graph.integrity_roots@, acc_f.integrity + acc.integrity, step.integrity);
                assert(acc_f.boundary + acc.boundary + step.boundary =~= acc_f.boundary + (acc.boundary + step.boundary));
                assert(acc_f.integrity + acc.integrity + step.integrity =~= acc_f.integrity + (acc.integrity + step.integrity));
                assert forall|i: int| 0 <= i < k implies all_below(#[trigger] lowered_evaluators@[i]@, builder.graph@.len())
                    && crate::mir::subst::param_terms(builder.graph@, lowered_evaluators@[i]@)
                    == evaluator_scope(evaluators@[i].1.params@).map_values(|b: (Identifier, Term)| b.1)
                    + evaluator_effects(c, evaluators@[i].1)->Done_0.body by {
                    lemma_terms_grew(bk.graph@, builder.graph@, lowered_evaluators@[i]@);
                }
                assert(body@.subrange(0, body@.len() as int) =~= body@);
                assert(body@.subrange(0, 0) =~= Seq::<NodeId>::empty());
                acc = then(acc, step);
            }
            lowered_evaluators.push(body);
            k = k + 1;
        }
        proof {
            assert(evaluators@.subrange(0, k as int) =~= evaluators@);
        }
        let ghost acc_e = acc;
        let ghost be = builder;
        let mut constraints = Owner::Constraints;
        let r = builder.build_statements(&mut constraints, &boundary_constraints, true);
        if r.is_err() {
            return Err(CompileError::Failed);
        }
        let ghost bb = builder;
        let r = builder.build_statements(&mut constraints, &integrity_constraints, false);
        if r.is_err() {
            return Err(CompileError::Failed);
        }
        proof {
            let d = lower_statements(c, Seq::empty(), boundary_constraints@, false, true)->Done_0;
            let e = lower_statements(c, Seq::empty(), integrity_constraints@, false, false)->Done_0;
            lemma_grew_trans(&be, &bb, &builder, true, true);
            lemma_grew_trans(&b0, &be, &builder, true, true);
            lemma_grew_trans(&bf, &be, &builder, true, true);
            assert forall|x: int| 0 <= x < be.graph.boundary_roots@.len() implies #[trigger] be.graph.boundary_roots@[x] < be.graph@.len() by {}
            assert forall|x: int| 0 <= x < be.graph.integrity_roots@.len() implies #[trigger] be.graph.integrity_roots@[x] < be.graph@.len() by {}
            assert forall|x: int| 0 <= x < bb.graph.boundary_roots@.len() implies #[trigger] bb.graph.boundary_roots@[x] < bb.graph@.len() by {}
            assert forall|x: int| 0 <= x < bb.graph.integrity_roots@.len() implies #[trigger] bb.graph.integrity_roots@[x] < bb.graph@.len() by {}
            lemma_appended_trans(be.graph@, bb.graph@, Seq::empty(), be.graph.boundary_roots@, bb.graph.boundary_roots@, acc_f.boundary + acc_e.boundary, d.boundary);
            lemma_appended_trans(be.graph@, bb.graph@, Seq::empty(), be.graph.integrity_roots@, bb.graph.integrity_roots@, acc_f.integrity + acc_e.integrity, d.integrity);
            lemma_appended_trans(bb.graph@, builder.graph@, Seq::empty(), bb.graph.boundary_roots@, builder.graph.boundary_roots@, acc_f.boundary + acc_e.boundary + d.boundary, e.boundary);
            lemma_appended_trans(bb.graph@, builder.graph@, Seq::empty(), bb.graph.integrity_roots@, builder.graph.integrity_roots@, acc_f.integrity + acc_e.integrity + d.integrity, e.integrity);
            assert(builder.graph.boundary_roots@.subrange(0, builder.graph.boundary_roots@.len() as int) =~= builder.graph.boundary_roots@);
            assert(builder.graph.integrity_roots@.subrange(0, builder.graph.integrity_roots@.len() as int) =~= builder.graph.integrity_roots@);
            assert(builder.graph.boundary_roots@.subrange(0, 0) =~= Seq::<NodeId>::empty());
            assert(builder.graph.integrity_roots@.subrange(0, 0) =~= Seq::<NodeId>::empty());
            assert forall|i: int| 0 <= i < functions@.len() implies all_below(#[trigger] lowered_functions@[i].body@, builder.graph@.len())
                && crate::mir::subst::param_terms(builder.graph@, lowered_functions@[i].body@)
                == function_effects(c, functions@[i].1)->Done_0.body by {
                lemma_terms_grew(bf.graph@, builder.graph@, lowered_functions@[i].body@);
            }
            assert forall|i: int| 0 <= i < evaluators@.len() implies all_below(#[trigger] lowered_evaluators@[i]@, builder.graph@.len())
                && crate::mir::subst::param_terms(builder.graph@, lowered_evaluators@[i]@)
                == evaluator_scope(evaluators@[i].1.params@).map_values(|b: (Identifier, Term)| b.1)
                + evaluator_effects(c, evaluators@[i].1)->Done_0.body by {
                lemma_terms_grew(be.graph@, builder.graph@, lowered_evaluators@[i]@);
            }
        }
        let mir = Mir { name, constraint_graph: builder.graph, num_random_values };
        Ok(LoweredProgram { mir, functions: lowered_functions, evaluators: lowered_evaluators })
    }
}


/// A lowered binary expression other than a power evaluates, at every row, to its operator
/// applied to the values of its operands: a sum, a difference, a product; an equality
/// enforces the difference of its sides, which is its value.
pub proof fn lemma_lowered_binary_value(
    c: Globals,
    s: Seq<(Identifier, Term)>,
    b: BinaryExpr,
    l: Term,
    r: Term,
    env: Env,
    shift: int,
)
    requires
        lower_scalar(c, s, *b.lhs) == Lowering::Done(l),
        lower_scalar(c, s, *b.rhs) == Lowering::Done(r),
        b.op != BinaryOp::Exp,
    ensures
        lower_binary(c, s, b) matches Lowering::Done(t) && eval_at(t, env, shift) == match b.op {
            BinaryOp::Add => eval_at(l, env, shift) + eval_at(r, env, shift),
            BinaryOp::Sub => eval_at(l, env, shift) - eval_at(r, env, shift),
            BinaryOp::Mul => eval_at(l, env, shift) * eval_at(r, env, shift),
            BinaryOp::Eq => eval_at(l, env, shift) - eval_at(r, env, shift),
            BinaryOp::Exp => 0,
        },
{
    assert(lower_binary(c, s, b) == Lowering::Done(binary_term(b.op, l, r)));
    if b.op == BinaryOp::Eq {
        let d = Term::Sub(Box::new(l), Box::new(r));
        assert(eval_at(d, env, shift) == eval_at(l, env, shift) - eval_at(r, env, shift));
        assert(eval_at(Term::Enf(Box::new(d)), env, shift) == eval_at(d, env, shift));
    }
}

/// A lowered power by a constant evaluates, at every row, to the value of its base raised to
/// that constant.
pub proof fn lemma_lowered_power_value(
    c: Globals,
    s: Seq<(Identifier, Term)>,
    b: BinaryExpr,
    l: Term,
    n: u64,
    env: Env,
    shift: int,
)
    requires
        lower_scalar(c, s, *b.lhs) == Lowering::Done(l),
        *b.rhs == ScalarExpr::Const(n),
        b.op == BinaryOp::Exp,
    ensures
        lower_binary(c, s, b) matches Lowering::Done(t) && eval_at(t, env, shift) == pow(
            eval_at(l, env, shift),
            n as nat,
        ),
{
    lemma_exp_tree_value(l, n as nat, env, shift);
}

} // verus!
