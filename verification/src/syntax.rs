//! Statements and expressions of the syntax tree, as semantic analysis leaves them: every name
//! resolved, and every access and call annotated with its type.
use vstd::prelude::*;
use crate::ast::{access_result, AccessType, RangeExpr, ScalarType, Type};
use crate::mir::graph::BoundaryKind;

verus! {

/// An interned name: its symbol, and whether it is special (`$`-prefixed), as the random
/// values array and the trace segments are.
#[derive(Debug, Clone, Copy, PartialEq, Eq, Structural)]
pub struct Identifier {
    pub symbol: usize,
    pub special: bool,
}

/// A name as resolution left it: a name of the module, or a reference resolved to a
/// declaration of another module.
#[derive(Debug, Clone, Copy, PartialEq, Eq, Structural)]
pub enum ResolvableIdentifier {
    Local(Identifier),
    Global(Identifier),
    Resolved(Identifier),
}

impl ResolvableIdentifier {
    pub open spec fn id(self) -> Identifier {
        match self {
            ResolvableIdentifier::Local(id) => id,
            ResolvableIdentifier::Global(id) => id,
            ResolvableIdentifier::Resolved(id) => id,
        }
    }

    /// The name itself, however it was resolved.
    pub fn as_ref(&self) -> (r: Identifier)
        ensures
            r == self.id(),
    {
        match self {
            ResolvableIdentifier::Local(id) => *id,
            ResolvableIdentifier::Global(id) => *id,
            ResolvableIdentifier::Resolved(id) => *id,
        }
    }
}

/// An access to a named value: how it is accessed, at which row offset, and the type of what
/// the access gives.
#[derive(Debug, Clone, Copy, PartialEq, Eq, Structural)]
pub struct SymbolAccess {
    pub name: ResolvableIdentifier,
    pub access_type: AccessType,
    pub offset: usize,
    pub ty: Option<Type>,
}

/// The access type of a further access into what `base` gives: an element of the whole
/// value, or an element of the row it selects.
pub open spec fn nested_access(base: AccessType, a: AccessType) -> Option<AccessType> {
    match (base, a) {
        (AccessType::Default, _) => Some(a),
        (AccessType::Index(row), AccessType::Index(col)) => Some(AccessType::Matrix(row, col)),
        _ => None,
    }
}

impl SymbolAccess {
    /// The access that goes one step further into what this one gives; `None` where that
    /// access is not defined or does not type-check.
    pub open spec fn spec_access(self, a: AccessType) -> Option<SymbolAccess> {
        match (nested_access(self.access_type, a), self.ty) {
            (Some(access_type), Some(t)) => match access_result(t, a) {
                Ok(ty) => Some(
                    SymbolAccess { name: self.name, access_type, offset: self.offset, ty: Some(ty) },
                ),
                Err(_) => None,
            },
            _ => None,
        }
    }

    pub fn access(&self, a: AccessType) -> (r: Option<SymbolAccess>)
        ensures
            r == self.spec_access(a),
    {
        let access_type = match (self.access_type, a) {
            (AccessType::Default, _) => a,
            (AccessType::Index(row), AccessType::Index(col)) => AccessType::Matrix(row, col),
            _ => return None,
        };
        match self.ty {
            Some(t) => match t.access(a) {
                Ok(ty) => Some(
                    SymbolAccess { name: self.name, access_type, offset: self.offset, ty: Some(ty) },
                ),
                Err(_) => None,
            },
            None => None,
        }
    }
}

/// A constant value.
#[derive(Debug, Clone, PartialEq, Eq)]
pub enum ConstantExpr {
    Scalar(u64),
    Vector(Vec<u64>),
    Matrix(Vec<Vec<u64>>),
}

/// The operators of binary expressions.
#[derive(Debug, Clone, Copy, PartialEq, Eq, Structural)]
pub enum BinaryOp {
    Add,
    Sub,
    Mul,
    Exp,
    Eq,
}

/// What a call calls: the `sum` or `prod` builtin, or a function or evaluator by name.
#[derive(Debug, Clone, Copy, PartialEq, Eq, Structural)]
pub enum Callee {
    Sum,
    Prod,
    Named(Identifier),
}

/// A call, with the type of its result.
#[derive(Debug)]
pub struct Call {
    pub callee: Callee,
    pub args: Vec<Expr>,
    pub ty: Option<Type>,
}

/// A binary expression over scalars.
#[derive(Debug)]
pub struct BinaryExpr {
    pub op: BinaryOp,
    pub lhs: Box<ScalarExpr>,
    pub rhs: Box<ScalarExpr>,
}

/// An expression that produces a scalar.
#[derive(Debug)]
pub enum ScalarExpr {
    Const(u64),
    SymbolAccess(SymbolAccess),
    /// An access in the first or last row
    BoundedSymbolAccess(SymbolAccess, BoundaryKind),
    Binary(BinaryExpr),
    Call(Call),
    Let(Box<Let>),
}

/// `[body for (bindings) in (iterables) when selector]`, with the type of the result.
#[derive(Debug)]
pub struct ListComprehension {
    pub bindings: Vec<Identifier>,
    pub iterables: Vec<Expr>,
    pub selector: Option<ScalarExpr>,
    pub body: Box<ScalarExpr>,
    pub ty: Option<Type>,
}

/// `let name = value` in front of the statements of its body.
#[derive(Debug)]
pub struct Let {
    pub name: Identifier,
    pub value: Expr,
    pub body: Vec<Statement>,
}

/// An expression.
#[derive(Debug)]
pub enum Expr {
    Const(ConstantExpr),
    Range(RangeExpr),
    Vector(Vec<Expr>),
    Matrix(Vec<Vec<ScalarExpr>>),
    SymbolAccess(SymbolAccess),
    Binary(BinaryExpr),
    Call(Call),
    ListComprehension(ListComprehension),
    Let(Box<Let>),
}

/// A statement.
#[derive(Debug)]
pub enum Statement {
    Let(Let),
    /// The value of a function body
    Expr(Expr),
    /// A constraint: the scalar is zero
    Enforce(ScalarExpr),
    /// A constraint on every element the comprehension produces
    EnforceAll(ListComprehension),
}

/// The type of an expression: that of its constant or range, the types recorded on accesses,
/// calls and comprehensions, a vector of its first element's type, and the type of what a
/// `let` ends with.
pub open spec fn expr_typ(e: Expr) -> Option<Type>
    decreases e, 0nat,
{
    match e {
        Expr::Const(ConstantExpr::Scalar(_)) => Some(Type::Scalar(ScalarType::Felt)),
        Expr::Const(ConstantExpr::Vector(v)) => Some(Type::Vector(ScalarType::Felt, v@.len() as usize)),
        Expr::Const(ConstantExpr::Matrix(m)) => Some(
            Type::Matrix(
                ScalarType::Felt,
                m@.len() as usize,
                if m@.len() == 0 {
                    0
                } else {
                    m@[0]@.len() as usize
                },
            ),
        ),
        Expr::Range(r) => Some(Type::Vector(ScalarType::Felt, r.spec_len() as usize)),
        Expr::Vector(es) => if es@.len() == 0 {
            Some(Type::Vector(ScalarType::Felt, 0))
        } else {
            match expr_typ(es@[0]) {
                Some(Type::Scalar(s)) => Some(Type::Vector(s, es@.len() as usize)),
                Some(Type::Vector(s, n)) => Some(Type::Matrix(s, es@.len() as usize, n)),
                _ => None,
            }
        },
        Expr::Matrix(rows) => Some(
            Type::Matrix(
                ScalarType::Felt,
                rows@.len() as usize,
                if rows@.len() == 0 {
                    0
                } else {
                    rows@[0]@.len() as usize
                },
            ),
        ),
        Expr::SymbolAccess(a) => a.ty,
        Expr::Binary(_) => Some(Type::Scalar(ScalarType::Felt)),
        Expr::Call(c) => c.ty,
        Expr::ListComprehension(lc) => lc.ty,
        Expr::Let(l) => let_typ(*l),
    }
}

/// The type of a `let`: that of the statement it ends with.
pub open spec fn let_typ(l: Let) -> Option<Type>
    decreases l, 1nat,
{
    if l.body@.len() == 0 {
        None
    } else {
        match l.body@.last() {
            Statement::Expr(e) => expr_typ(e),
            Statement::Let(inner) => let_typ(inner),
            _ => None,
        }
    }
}

impl Let {
    pub fn ty(&self) -> (r: Option<Type>)
        ensures
            r == let_typ(*self),
        decreases *self, 1nat,
    {
        let n = self.body.len();
        if n == 0 {
            return None;
        }
        match &self.body[n - 1] {
            Statement::Expr(e) => e.ty(),
            Statement::Let(inner) => inner.ty(),
            _ => None,
        }
    }
}

impl Expr {
    pub fn ty(&self) -> (r: Option<Type>)
        ensures
            r == expr_typ(*self),
        decreases *self, 0nat,
    {
        match self {
            Expr::Const(ConstantExpr::Scalar(_)) => Some(Type::Scalar(ScalarType::Felt)),
            Expr::Const(ConstantExpr::Vector(v)) => Some(Type::Vector(ScalarType::Felt, v.len())),
            Expr::Const(ConstantExpr::Matrix(m)) => Some(
                Type::Matrix(
                    ScalarType::Felt,
                    m.len(),
                    if m.len() == 0 {
                        0
                    } else {
                        m[0].len()
                    },
                ),
            ),
            Expr::Range(r) => Some(Type::Vector(ScalarType::Felt, r.len())),
            Expr::Vector(es) => if es.len() == 0 {
                Some(Type::Vector(ScalarType::Felt, 0))
            } else {
                match es[0].ty() {
                    Some(Type::Scalar(s)) => Some(Type::Vector(s, es.len())),
                    Some(Type::Vector(s, n)) => Some(Type::Matrix(s, es.len(), n)),
                    _ => None,
                }
            },
            Expr::Matrix(rows) => Some(
                Type::Matrix(
                    ScalarType::Felt,
                    rows.len(),
                    if rows.len() == 0 {
                        0
                    } else {
                        rows[0].len()
                    },
                ),
            ),
            Expr::SymbolAccess(a) => a.ty,
            Expr::Binary(_) => Some(Type::Scalar(ScalarType::Felt)),
            Expr::Call(c) => c.ty,
            Expr::ListComprehension(lc) => lc.ty,
            Expr::Let(l) => l.ty(),
        }
    }
}

/// A name bound to consecutive trace columns: its segment, first column and number of
/// columns.
#[derive(Debug, Clone, Copy, PartialEq, Eq, Structural)]
pub struct TraceBinding {
    pub name: Option<Identifier>,
    pub segment: usize,
    pub offset: usize,
    pub size: usize,
}

/// A trace segment: its index, its name and the bindings of its columns.
#[derive(Debug)]
pub struct TraceSegment {
    pub id: usize,
    pub name: Identifier,
    pub bindings: Vec<TraceBinding>,
}

/// A name bound to consecutive random values.
#[derive(Debug, Clone, Copy, PartialEq, Eq, Structural)]
pub struct RandBinding {
    pub name: Identifier,
    pub offset: usize,
    pub size: usize,
}

/// The random values array: its name, its size and the bindings into it.
#[derive(Debug)]
pub struct RandomValues {
    pub name: Identifier,
    pub size: usize,
    pub bindings: Vec<RandBinding>,
}

/// A function: its parameters with their types, the type of its result, and its body.
#[derive(Debug)]
pub struct Function {
    pub params: Vec<(Identifier, Type)>,
    pub return_type: Type,
    pub body: Vec<Statement>,
}

/// An evaluator: the trace columns it takes, by segment, and its body.
#[derive(Debug)]
pub struct EvaluatorFunction {
    pub params: Vec<TraceSegment>,
    pub body: Vec<Statement>,
}

/// A program after semantic analysis: its name, its declarations, its functions and
/// evaluators, and its boundary and integrity constraints.
#[derive(Debug)]
pub struct Program {
    pub name: String,
    pub random_values: Option<RandomValues>,
    pub trace_columns: Vec<TraceSegment>,
    pub public_inputs: Vec<Identifier>,
    pub periodic_columns: Vec<Identifier>,
    pub functions: Vec<(Identifier, Function)>,
    pub evaluators: Vec<(Identifier, EvaluatorFunction)>,
    pub boundary_constraints: Vec<Statement>,
    pub integrity_constraints: Vec<Statement>,
}

} // verus!
