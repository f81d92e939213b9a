//! The value of a scalar expression tree at a row of the execution trace, over the integers.
//! Constraints hold over a prime field; an identity over the integers is stronger and implies
//! the one in the field.
use vstd::prelude::*;
use crate::ast::AccessType;
use crate::mir::graph::MirValue;
use crate::mir::term::Term;

verus! {

/// What the leaves of a tree stand for at the current row.
pub struct Env {
    /// trace segment, column, row offset
    pub trace: spec_fn(usize, usize, int) -> int,
    /// periodic column, row offset
    pub periodic: spec_fn(usize, int) -> int,
    /// public input, element
    pub public: spec_fn(usize, usize) -> int,
    /// random value (alpha) by index
    pub random: spec_fn(usize) -> int,
    /// bus, row offset
    pub bus: spec_fn(usize, int) -> int,
    /// what empty and unconstrained values stand for
    pub other: int,
}

/// The value of a leaf, its rows shifted by `shift`. A binding of a single column or random
/// value is that column or value; a wider binding is not a scalar.
pub open spec fn eval_value(v: MirValue, env: Env, shift: int) -> int {
    match v {
        MirValue::Constant(c) => c as int,
        MirValue::TraceAccess(ta) => (env.trace)(ta.segment, ta.column, ta.row_offset + shift),
        MirValue::TraceAccessBinding(b) => if b.size == 1 {
            (env.trace)(b.segment, b.offset, shift)
        } else {
            0
        },
        MirValue::PeriodicColumn(i) => (env.periodic)(i, shift),
        MirValue::PublicInput(i, j) => (env.public)(i, j),
        MirValue::RandomValue(i) => (env.random)(i),
        MirValue::RandomValueBinding(b) => if b.size == 1 {
            (env.random)(b.offset)
        } else {
            0
        },
        MirValue::BusAccess(b, off) => (env.bus)(b, off + shift),
        MirValue::ConstantVector(_) | MirValue::ConstantMatrix(_) => 0,
        MirValue::Null => env.other,
        MirValue::Unconstrained => env.other,
    }
}

/// The value of a scalar tree with its rows shifted by `shift`: sums, differences and
/// products of values; a power with a non-negative exponent; an access with a row offset
/// shifts the rows of what it accesses, and picks an element of a vector or of a matrix; an
/// enforcement has the value of what it enforces to be zero. Other trees are not scalars and
/// have value zero.
pub open spec fn eval_at(t: Term, env: Env, shift: int) -> int
    decreases t,
{
    match t {
        Term::Value(v) => eval_value(v, env, shift),
        Term::Add(l, r) => eval_at(*l, env, shift) + eval_at(*r, env, shift),
        Term::Sub(l, r) => eval_at(*l, env, shift) - eval_at(*r, env, shift),
        Term::Mul(l, r) => eval_at(*l, env, shift) * eval_at(*r, env, shift),
        Term::Exp(l, r) => {
            let e = eval_at(*r, env, shift);
            if e >= 0 {
                pow(eval_at(*l, env, shift), e as nat)
            } else {
                0
            }
        },
        Term::Enf(e) => eval_at(*e, env, shift),
        Term::Accessor(i, a, o) => match a {
            AccessType::Default => eval_at(*i, env, shift + o),
            AccessType::Index(k) => match *i {
                Term::Vector(es) => if k < es.len() {
                    eval_at(es[k as int], env, shift + o)
                } else {
                    0
                },
                _ => 0,
            },
            AccessType::Matrix(r, c) => match *i {
                Term::Matrix(rows) => if r < rows.len() {
                    match rows[r as int] {
                        Term::Vector(es) => if c < es.len() {
                            eval_at(es[c as int], env, shift + o)
                        } else {
                            0
                        },
                        _ => 0,
                    }
                } else {
                    0
                },
                _ => 0,
            },
            _ => 0,
        },
        _ => 0,
    }
}

/// The value of a scalar tree at the current row.
pub open spec fn eval(t: Term, env: Env) -> int {
    eval_at(t, env, 0)
}

/// `b` to the power `e`.
pub open spec fn pow(b: int, e: nat) -> int
    decreases e,
{
    if e == 0 {
        1
    } else {
        b * pow(b, (e - 1) as nat)
    }
}

} // verus!
