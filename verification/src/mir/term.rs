//! The expression tree that a node of the graph denotes, with shared operands unfolded.
use vstd::prelude::*;
use crate::ast::AccessType;
use crate::mir::graph::{
    all_below, BoundaryKind, BusOpKind, FoldOperator, MirType, MirValue, NodeId, Op,
};

verus! {

/// An expression tree.
pub enum Term {
    Value(MirValue),
    /// A constant vector, by its elements
    ConstVector(Seq<u64>),
    /// A constant matrix, by its rows
    ConstMatrix(Seq<Seq<u64>>),
    Parameter(usize, MirType),
    Add(Box<Term>, Box<Term>),
    Sub(Box<Term>, Box<Term>),
    Mul(Box<Term>, Box<Term>),
    Exp(Box<Term>, Box<Term>),
    Enf(Box<Term>),
    Boundary(BoundaryKind, Box<Term>),
    If(Box<Term>, Box<Term>, Box<Term>),
    Fold(Box<Term>, FoldOperator, Box<Term>),
    Vector(Seq<Term>),
    Matrix(Seq<Term>),
    Accessor(Box<Term>, AccessType, usize),
    For(Seq<Term>, Box<Term>, Option<Box<Term>>),
    Call(usize, Seq<Term>),
    BusOp(usize, BusOpKind, Seq<Term>, Box<Term>),
    Nothing,
    /// A node that refers to an operand not stored before it
    Invalid,
}

/// The tree of a leaf value: a constant vector or matrix by its elements, any other value
/// itself.
pub open spec fn value_term(v: MirValue) -> Term {
    match v {
        MirValue::ConstantVector(es) => Term::ConstVector(es@),
        MirValue::ConstantMatrix(rows) => Term::ConstMatrix(rows@.map_values(|r: Vec<u64>| r@)),
        _ => Term::Value(v),
    }
}

/// The tree denoted by node `id` of `g`.
pub open spec fn term(g: Seq<Op>, id: nat) -> Term
    decreases id, 1nat, 0nat,
{
    if id >= g.len() {
        Term::Invalid
    } else {
        match g[id as int] {
            Op::Value(v) => value_term(v),
            Op::Parameter(p, t) => Term::Parameter(p, t),
            Op::Add(l, r) => if l < id && r < id {
                Term::Add(Box::new(term(g, l as nat)), Box::new(term(g, r as nat)))
            } else {
                Term::Invalid
            },
            Op::Sub(l, r) => if l < id && r < id {
                Term::Sub(Box::new(term(g, l as nat)), Box::new(term(g, r as nat)))
            } else {
                Term::Invalid
            },
            Op::Mul(l, r) => if l < id && r < id {
                Term::Mul(Box::new(term(g, l as nat)), Box::new(term(g, r as nat)))
            } else {
                Term::Invalid
            },
            Op::Exp(l, r) => if l < id && r < id {
                Term::Exp(Box::new(term(g, l as nat)), Box::new(term(g, r as nat)))
            } else {
                Term::Invalid
            },
            Op::Enf(e) => if e < id {
                Term::Enf(Box::new(term(g, e as nat)))
            } else {
                Term::Invalid
            },
            Op::Boundary(k, e) => if e < id {
                Term::Boundary(k, Box::new(term(g, e as nat)))
            } else {
                Term::Invalid
            },
            Op::If(c, t, e) => if c < id && t < id && e < id {
                Term::If(
                    Box::new(term(g, c as nat)),
                    Box::new(term(g, t as nat)),
                    Box::new(term(g, e as nat)),
                )
            } else {
                Term::Invalid
            },
            Op::Fold(i, o, a) => if i < id && a < id {
                Term::Fold(Box::new(term(g, i as nat)), o, Box::new(term(g, a as nat)))
            } else {
                Term::Invalid
            },
            Op::Vector(v) => Term::Vector(terms(g, v@, id)),
            Op::Matrix(v) => Term::Matrix(terms(g, v@, id)),
            Op::Accessor(i, a, o) => if i < id {
                Term::Accessor(Box::new(term(g, i as nat)), a, o)
            } else {
                Term::Invalid
            },
            Op::For(its, body, sel) => if body < id {
                Term::For(
                    terms(g, its@, id),
                    Box::new(term(g, body as nat)),
                    match sel {
                        Some(s) => if s < id {
                            Some(Box::new(term(g, s as nat)))
                        } else {
                            Some(Box::new(Term::Invalid))
                        },
                        None => None,
                    },
                )
            } else {
                Term::Invalid
            },
            Op::Call(f, args) => Term::Call(f, terms(g, args@, id)),
            Op::BusOp(b, k, args, latch) => if latch < id {
                Term::BusOp(b, k, terms(g, args@, id), Box::new(term(g, latch as nat)))
            } else {
                Term::Invalid
            },
            Op::Nothing => Term::Nothing,
        }
    }
}

/// The trees denoted by the nodes `ids`, each of which must be below `bound`.
pub open spec fn terms(g: Seq<Op>, ids: Seq<NodeId>, bound: nat) -> Seq<Term>
    decreases bound, 0nat, ids.len(),
{
    if ids.len() == 0 {
        Seq::empty()
    } else {
        let last = ids.last();
        let front = terms(g, ids.drop_last(), bound);
        if last < bound {
            front.push(term(g, last as nat))
        } else {
            front.push(Term::Invalid)
        }
    }
}

/// `terms` lists the tree of each index in order.
pub proof fn lemma_terms_index(g: Seq<Op>, ids: Seq<NodeId>, bound: nat)
    requires
        all_below(ids, bound),
    ensures
        terms(g, ids, bound).len() == ids.len(),
        forall|k: int| 0 <= k < ids.len() ==> #[trigger] terms(g, ids, bound)[k] == term(g, ids[k] as nat),
    decreases ids.len(),
{
    if ids.len() > 0 {
        lemma_terms_index(g, ids.drop_last(), bound);
    }
}

/// Two index lists whose trees agree pointwise have equal tree lists.
pub proof fn lemma_terms_ext(
    g1: Seq<Op>,
    ids1: Seq<NodeId>,
    b1: nat,
    g2: Seq<Op>,
    ids2: Seq<NodeId>,
    b2: nat,
)
    requires
        all_below(ids1, b1),
        all_below(ids2, b2),
        ids1.len() == ids2.len(),
        forall|k: int| 0 <= k < ids1.len() ==> term(g1, #[trigger] ids1[k] as nat) == term(g2, ids2[k] as nat),
    ensures
        terms(g1, ids1, b1) == terms(g2, ids2, b2),
{
    lemma_terms_index(g1, ids1, b1);
    lemma_terms_index(g2, ids2, b2);
    assert(terms(g1, ids1, b1) =~= terms(g2, ids2, b2));
}

/// The tree of a node only depends on the nodes stored up to it: it stays the same when
/// nodes are appended.
pub proof fn lemma_term_extend(g1: Seq<Op>, g2: Seq<Op>, id: nat)
    requires
        id < g1.len(),
        g1.len() <= g2.len(),
        g2.subrange(0, g1.len() as int) == g1,
    ensures
        term(g2, id) == term(g1, id),
    decreases id, 1nat, 0nat,
{
    assert(g2[id as int] == g1[id as int]);
    match g1[id as int] {
        Op::Add(l, r) | Op::Sub(l, r) | Op::Mul(l, r) | Op::Exp(l, r) => {
            if l < id && r < id {
                lemma_term_extend(g1, g2, l as nat);
                lemma_term_extend(g1, g2, r as nat);
            }
        },
        Op::Enf(e) | Op::Boundary(_, e) | Op::Accessor(e, _, _) => {
            if e < id {
                lemma_term_extend(g1, g2, e as nat);
            }
        },
        Op::If(c, t, e) => {
            if c < id && t < id && e < id {
                lemma_term_extend(g1, g2, c as nat);
                lemma_term_extend(g1, g2, t as nat);
                lemma_term_extend(g1, g2, e as nat);
            }
        },
        Op::Fold(i, _, a) => {
            if i < id && a < id {
                lemma_term_extend(g1, g2, i as nat);
                lemma_term_extend(g1, g2, a as nat);
            }
        },
        Op::Vector(v) | Op::Matrix(v) | Op::Call(_, v) => {
            lemma_terms_extend(g1, g2, v@, id);
        },
        Op::For(its, body, sel) => {
            lemma_terms_extend(g1, g2, its@, id);
            if body < id {
                lemma_term_extend(g1, g2, body as nat);
            }
            if let Some(s) = sel {
                if s < id {
                    lemma_term_extend(g1, g2, s as nat);
                }
            }
        },
        Op::BusOp(_, _, args, latch) => {
            lemma_terms_extend(g1, g2, args@, id);
            if latch < id {
                lemma_term_extend(g1, g2, latch as nat);
            }
        },
        _ => {},
    }
}

pub proof fn lemma_terms_extend(g1: Seq<Op>, g2: Seq<Op>, ids: Seq<NodeId>, bound: nat)
    requires
        bound <= g1.len(),
        g1.len() <= g2.len(),
        g2.subrange(0, g1.len() as int) == g1,
    ensures
        terms(g2, ids, bound) == terms(g1, ids, bound),
    decreases bound, 0nat, ids.len(),
{
    if ids.len() > 0 {
        lemma_terms_extend(g1, g2, ids.drop_last(), bound);
        if ids.last() < bound {
            lemma_term_extend(g1, g2, ids.last() as nat);
        }
    }
}

} // verus!
