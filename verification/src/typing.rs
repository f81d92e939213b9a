//! Types of AirScript values and the rules that relate them: subtyping,
//! compatibility, shape compatibility, and the result types of binary operators.
use vstd::prelude::*;

verus! {

/// The scalar types of AirScript values.
#[derive(Debug, Clone, Copy, PartialEq, Eq, Structural)]
pub enum ScalarType {
    Felt,
    Bool,
    Int,
}

/// A value type: a scalar, a vector of `len` elements, or a matrix of `rows x cols`
/// elements. A scalar type of `None` stands for a scalar type that is not known yet.
#[derive(Debug, Clone, Copy, PartialEq, Eq, Structural)]
pub enum Type {
    Scalar(Option<ScalarType>),
    Vector(Option<ScalarType>, usize),
    Matrix(Option<ScalarType>, usize, usize),
}

/// A length that matches any other length in shape checks.
pub open spec fn wildcard_dim() -> usize {
    u32::MAX as usize
}

/// The scalar type of a (possibly unknown) type.
pub open spec fn scalar_of(t: Option<Type>) -> Option<ScalarType> {
    match t {
        Some(Type::Scalar(s)) => s,
        Some(Type::Vector(s, _)) => s,
        Some(Type::Matrix(s, _, _)) => s,
        None => None,
    }
}

/// Position of a known scalar type in the order `bool < felt < int`.
pub open spec fn scalar_rank(s: ScalarType) -> int {
    match s {
        ScalarType::Bool => 0,
        ScalarType::Felt => 1,
        ScalarType::Int => 2,
    }
}

/// `_ <= bool < felt < int <= _`: an unknown scalar type is below and above every other.
pub open spec fn scalar_subtype(a: Option<ScalarType>, b: Option<ScalarType>) -> bool {
    match (a, b) {
        (Some(x), Some(y)) => scalar_rank(x) <= scalar_rank(y),
        _ => true,
    }
}

/// A scalar subtype, or the conversion from `felt` to `bool`.
pub open spec fn scalar_compatible(a: Option<ScalarType>, b: Option<ScalarType>) -> bool {
    scalar_subtype(a, b) || (a == Some(ScalarType::Felt) && b == Some(ScalarType::Bool))
}

/// Two dimensions agree when equal, or when either is the wildcard length.
pub open spec fn dim_compatible(x: usize, y: usize) -> bool {
    x == y || x == wildcard_dim() || y == wildcard_dim()
}

/// Two types have compatible shapes: either is unknown, both are scalars, or both are
/// vectors (matrices) whose dimensions agree.
pub open spec fn shape_compatible(a: Option<Type>, b: Option<Type>) -> bool {
    match (a, b) {
        (None, _) => true,
        (_, None) => true,
        (Some(Type::Scalar(_)), Some(Type::Scalar(_))) => true,
        (Some(Type::Vector(_, l1)), Some(Type::Vector(_, l2))) => dim_compatible(l1, l2),
        (Some(Type::Matrix(_, r1, c1)), Some(Type::Matrix(_, r2, c2))) => dim_compatible(r1, r2)
            && dim_compatible(c1, c2),
        _ => false,
    }
}

/// `a` can be used where `b` is expected, allowing the conversion from `felt` to `bool`.
pub open spec fn compatible(a: Option<Type>, b: Option<Type>) -> bool {
    shape_compatible(a, b) && scalar_compatible(scalar_of(a), scalar_of(b))
}

/// `a` is a subtype of `b` (covariant in containers).
pub open spec fn subtype(a: Option<Type>, b: Option<Type>) -> bool {
    shape_compatible(a, b) && scalar_subtype(scalar_of(a), scalar_of(b))
}

/// The scalar type of a (possibly unknown) type.
pub fn scalar_ty_of(t: Option<Type>) -> (r: Option<ScalarType>)
    ensures
        r == scalar_of(t),
{
    match t {
        Some(Type::Scalar(s)) => s,
        Some(Type::Vector(s, _)) => s,
        Some(Type::Matrix(s, _, _)) => s,
        None => None,
    }
}

fn dims_agree(x: usize, y: usize) -> (r: bool)
    ensures
        r == dim_compatible(x, y),
{
    x == y || x == u32::MAX as usize || y == u32::MAX as usize
}

/// Anything that has a (possibly unknown) AirScript type.
pub trait Typing {
    /// The type of this value, as contracts see it.
    spec fn typ(&self) -> Option<Type>;

    fn ty(&self) -> (r: Option<Type>)
        ensures
            r == self.typ(),
    ;

    fn scalar_ty(&self) -> (r: Option<ScalarType>)
        ensures
            r == scalar_of(self.typ()),
    {
        let t = self.ty();
        scalar_ty_of(t)
    }

    fn is_scalar_int(&self) -> (r: bool)
        ensures
            r == (scalar_of(self.typ()) == Some(ScalarType::Int)),
    {
        match self.scalar_ty() {
            Some(ScalarType::Int) => true,
            _ => false,
        }
    }

    fn is_scalar_felt(&self) -> (r: bool)
        ensures
            r == (scalar_of(self.typ()) == Some(ScalarType::Felt)),
    {
        match self.scalar_ty() {
            Some(ScalarType::Felt) => true,
            _ => false,
        }
    }

    fn is_scalar_bool(&self) -> (r: bool)
        ensures
            r == (scalar_of(self.typ()) == Some(ScalarType::Bool)),
    {
        match self.scalar_ty() {
            Some(ScalarType::Bool) => true,
            _ => false,
        }
    }

    fn is_scalar(&self) -> (r: bool)
        ensures
            r == (self.typ() matches Some(Type::Scalar(_))),
    {
        match self.ty() {
            Some(Type::Scalar(_)) => true,
            _ => false,
        }
    }

    fn is_vector(&self) -> (r: bool)
        ensures
            r == (self.typ() matches Some(Type::Vector(_, _))),
    {
        match self.ty() {
            Some(Type::Vector(_, _)) => true,
            _ => false,
        }
    }

    fn is_matrix(&self) -> (r: bool)
        ensures
            r == (self.typ() matches Some(Type::Matrix(_, _, _))),
    {
        match self.ty() {
            Some(Type::Matrix(_, _, _)) => true,
            _ => false,
        }
    }

    /// `_ <= bool < felt < int <= _`
    fn is_scalar_subtype(&self, other: &Option<Type>) -> (r: bool)
        ensures
            r == scalar_subtype(scalar_of(self.typ()), scalar_of(*other)),
    {
        match (self.scalar_ty(), scalar_ty_of(*other)) {
            (Some(ScalarType::Int), Some(ScalarType::Felt)) => false,
            (Some(ScalarType::Int), Some(ScalarType::Bool)) => false,
            (Some(ScalarType::Felt), Some(ScalarType::Bool)) => false,
            _ => true,
        }
    }

    /// A scalar subtype, or the conversion from `felt` to `bool`.
    fn is_scalar_compatible(&self, other: &Option<Type>) -> (r: bool)
        ensures
            r == scalar_compatible(scalar_of(self.typ()), scalar_of(*other)),
    {
        self.is_scalar_subtype(other) || match (self.scalar_ty(), scalar_ty_of(*other)) {
            (Some(ScalarType::Felt), Some(ScalarType::Bool)) => true,
            _ => false,
        }
    }

    fn is_shape_compatible(&self, other: &Option<Type>) -> (r: bool)
        ensures
            r == shape_compatible(self.typ(), *other),
    {
        match (self.ty(), *other) {
            (None, _) => true,
            (_, None) => true,
            (Some(Type::Scalar(_)), Some(Type::Scalar(_))) => true,
            (Some(Type::Vector(_, len1)), Some(Type::Vector(_, len2))) => dims_agree(len1, len2),
            (Some(Type::Matrix(_, rows1, cols1)), Some(Type::Matrix(_, rows2, cols2))) => {
                dims_agree(rows1, rows2) && dims_agree(cols1, cols2)
            },
            _ => false,
        }
    }

    /// Shapes agree and the scalar types are compatible (covariance is assumed for
    /// containers, which holds because containers are immutable).
    fn is_compatible(&self, other: &Option<Type>) -> (r: bool)
        ensures
            r == compatible(self.typ(), *other),
    {
        if !self.is_shape_compatible(other) {
            return false;
        }
        self.is_scalar_compatible(other)
    }

    /// Shapes agree and the scalar type of `self` is a subtype of that of `other`.
    fn is_subtype(&self, other: &Option<Type>) -> (r: bool)
        ensures
            r == subtype(self.typ(), *other),
    {
        if !self.is_shape_compatible(other) {
            return false;
        }
        self.is_scalar_subtype(other)
    }
}

impl Typing for ScalarType {
    open spec fn typ(&self) -> Option<Type> {
        Some(Type::Scalar(Some(*self)))
    }

    fn ty(&self) -> (r: Option<Type>) {
        Some(Type::Scalar(Some(*self)))
    }

    fn scalar_ty(&self) -> (r: Option<ScalarType>) {
        Some(*self)
    }
}

impl Typing for Type {
    open spec fn typ(&self) -> Option<Type> {
        Some(*self)
    }

    fn ty(&self) -> (r: Option<Type>) {
        Some(*self)
    }

    fn scalar_ty(&self) -> (r: Option<ScalarType>) {
        match self {
            Type::Scalar(st) => *st,
            Type::Vector(st, _) => *st,
            Type::Matrix(st, _, _) => *st,
        }
    }
}

impl<T: Typing> Typing for Option<T> {
    open spec fn typ(&self) -> Option<Type> {
        match self {
            Some(t) => t.typ(),
            None => None,
        }
    }

    fn ty(&self) -> (r: Option<Type>) {
        match self {
            Some(t) => t.ty(),
            None => None,
        }
    }

    fn scalar_ty(&self) -> (r: Option<ScalarType>) {
        match self {
            Some(t) => t.scalar_ty(),
            None => None,
        }
    }
}


impl Type {
    /// The type with the scalar type of `self` and the shape of `shape`; unknown when
    /// `shape` is unknown.
    pub fn ty_with_shape(&self, shape: Option<Type>) -> (r: Option<Type>)
        ensures
            r == with_shape(*self, shape),
    {
        let sty = self.scalar_ty();
        match shape {
            None => None,
            Some(Type::Scalar(_)) => Some(Type::Scalar(sty)),
            Some(Type::Vector(_, len)) => Some(Type::Vector(sty, len)),
            Some(Type::Matrix(_, rows, cols)) => Some(Type::Matrix(sty, rows, cols)),
        }
    }
}

/// The type with scalar type of `t` and the dimensions of `shape`.
pub open spec fn with_shape(t: Type, shape: Option<Type>) -> Option<Type> {
    match shape {
        None => None,
        Some(Type::Scalar(_)) => Some(Type::Scalar(scalar_of(Some(t)))),
        Some(Type::Vector(_, len)) => Some(Type::Vector(scalar_of(Some(t)), len)),
        Some(Type::Matrix(_, rows, cols)) => Some(Type::Matrix(scalar_of(Some(t)), rows, cols)),
    }
}

/// A list of types under construction, one element at a time.
pub struct Push(pub Vec<Option<Type>>);

impl Push {
    pub fn push(self, ty: Option<Type>) -> (r: Self)
        ensures
            r.0@ == self.0@.push(ty),
    {
        let mut v = self.0;
        v.push(ty);
        Push(v)
    }
}

/// The type of a callable: an evaluator over trace bindings, or a function with
/// argument types and a return type.
#[derive(Debug, Clone, PartialEq, Eq)]
pub enum FunctionType {
    Evaluator(Vec<Option<Type>>),
    Function(Vec<Option<Type>>, Option<Type>),
}

impl FunctionType {
    pub open spec fn spec_args(&self) -> Seq<Option<Type>> {
        match self {
            FunctionType::Evaluator(args) => args@,
            FunctionType::Function(args, _) => args@,
        }
    }

    pub open spec fn spec_ret(&self) -> Option<Type> {
        match self {
            FunctionType::Evaluator(_) => None,
            FunctionType::Function(_, ret) => *ret,
        }
    }

    pub fn args(&self) -> (r: &[Option<Type>])
        ensures
            r@ == self.spec_args(),
    {
        match self {
            FunctionType::Evaluator(args) => args.as_slice(),
            FunctionType::Function(args, _) => args.as_slice(),
        }
    }

    /// Evaluators return nothing; a function returns its declared return type.
    pub fn ret(&self) -> (r: Option<Type>)
        ensures
            r == self.spec_ret(),
    {
        match self {
            FunctionType::Evaluator(_) => None,
            FunctionType::Function(_, ret) => *ret,
        }
    }
}

/// The operand and result types of a binary operator; the third component is the
/// result type, unknown until inferred.
#[derive(Debug, Clone, Copy, PartialEq, Eq, Structural)]
pub enum BinType {
    Eq(Option<Type>, Option<Type>, Option<Type>),
    Add(Option<Type>, Option<Type>, Option<Type>),
    Sub(Option<Type>, Option<Type>, Option<Type>),
    Mul(Option<Type>, Option<Type>, Option<Type>),
    Exp(Option<Type>, Option<Type>, Option<Type>),
}

/// Why a type could not be inferred.
#[derive(Debug, Clone, Copy, PartialEq, Eq, Structural)]
pub enum TypeError {
    IncompatibleShapes { ty: Option<Type>, new_ty: Option<Type> },
    IncompatibleBinOp { bin_ty: BinType },
}

impl BinType {
    pub open spec fn spec_lhs(&self) -> Option<Type> {
        match *self {
            BinType::Eq(l, _, _) => l,
            BinType::Add(l, _, _) => l,
            BinType::Sub(l, _, _) => l,
            BinType::Mul(l, _, _) => l,
            BinType::Exp(l, _, _) => l,
        }
    }

    pub open spec fn spec_rhs(&self) -> Option<Type> {
        match *self {
            BinType::Eq(_, r, _) => r,
            BinType::Add(_, r, _) => r,
            BinType::Sub(_, r, _) => r,
            BinType::Mul(_, r, _) => r,
            BinType::Exp(_, r, _) => r,
        }
    }

    pub open spec fn spec_ret(&self) -> Option<Type> {
        match *self {
            BinType::Eq(_, _, t) => t,
            BinType::Add(_, _, t) => t,
            BinType::Sub(_, _, t) => t,
            BinType::Mul(_, _, t) => t,
            BinType::Exp(_, _, t) => t,
        }
    }

    /// The same operator over the three given types.
    pub open spec fn with_types(&self, l: Option<Type>, r: Option<Type>, t: Option<Type>) -> BinType {
        match *self {
            BinType::Eq(_, _, _) => BinType::Eq(l, r, t),
            BinType::Add(_, _, _) => BinType::Add(l, r, t),
            BinType::Sub(_, _, _) => BinType::Sub(l, r, t),
            BinType::Mul(_, _, _) => BinType::Mul(l, r, t),
            BinType::Exp(_, _, _) => BinType::Exp(l, r, t),
        }
    }

    pub fn lhs(&self) -> (r: Option<Type>)
        ensures
            r == self.spec_lhs(),
    {
        match self {
            BinType::Eq(lhs, _, _) => *lhs,
            BinType::Add(lhs, _, _) => *lhs,
            BinType::Sub(lhs, _, _) => *lhs,
            BinType::Mul(lhs, _, _) => *lhs,
            BinType::Exp(lhs, _, _) => *lhs,
        }
    }

    pub fn rhs(&self) -> (r: Option<Type>)
        ensures
            r == self.spec_rhs(),
    {
        match self {
            BinType::Eq(_, rhs, _) => *rhs,
            BinType::Add(_, rhs, _) => *rhs,
            BinType::Sub(_, rhs, _) => *rhs,
            BinType::Mul(_, rhs, _) => *rhs,
            BinType::Exp(_, rhs, _) => *rhs,
        }
    }

    pub fn ret(&self) -> (r: Option<Type>)
        ensures
            r == self.spec_ret(),
    {
        match self {
            BinType::Eq(_, _, ret) => *ret,
            BinType::Add(_, _, ret) => *ret,
            BinType::Sub(_, _, ret) => *ret,
            BinType::Mul(_, _, ret) => *ret,
            BinType::Exp(_, _, ret) => *ret,
        }
    }

    /// Stores `ty` as the left operand type and gives back the one it replaces.
    pub fn lhs_mut(&mut self, ty: Option<Type>) -> (prev: Option<Type>)
        ensures
            prev == old(self).spec_lhs(),
            *final(self) == old(self).with_types(ty, old(self).spec_rhs(), old(self).spec_ret()),
    {
        let prev = self.lhs();
        *self = self.with_types_exec(ty, self.rhs(), self.ret());
        prev
    }

    /// Stores `ty` as the right operand type and gives back the one it replaces.
    pub fn rhs_mut(&mut self, ty: Option<Type>) -> (prev: Option<Type>)
        ensures
            prev == old(self).spec_rhs(),
            *final(self) == old(self).with_types(old(self).spec_lhs(), ty, old(self).spec_ret()),
    {
        let prev = self.rhs();
        *self = self.with_types_exec(self.lhs(), ty, self.ret());
        prev
    }

    /// Stores `ty` as the result type and gives back the one it replaces.
    pub fn ret_mut(&mut self, ty: Option<Type>) -> (prev: Option<Type>)
        ensures
            prev == old(self).spec_ret(),
            *final(self) == old(self).with_types(old(self).spec_lhs(), old(self).spec_rhs(), ty),
    {
        let prev = self.ret();
        *self = self.with_types_exec(self.lhs(), self.rhs(), ty);
        prev
    }

    fn with_types_exec(&self, l: Option<Type>, r: Option<Type>, t: Option<Type>) -> (b: BinType)
        ensures
            b == self.with_types(l, r, t),
    {
        match self {
            BinType::Eq(_, _, _) => BinType::Eq(l, r, t),
            BinType::Add(_, _, _) => BinType::Add(l, r, t),
            BinType::Sub(_, _, _) => BinType::Sub(l, r, t),
            BinType::Mul(_, _, _) => BinType::Mul(l, r, t),
            BinType::Exp(_, _, _) => BinType::Exp(l, r, t),
        }
    }

    /// The operator seen as a function of two arguments.
    pub fn as_fn(&self) -> (r: FunctionType)
        ensures
            r matches FunctionType::Function(args, ret) && args@ == seq![self.spec_lhs(), self.spec_rhs()]
                && ret == self.spec_ret(),
    {
        let mut args: Vec<Option<Type>> = Vec::new();
        args.push(self.lhs());
        args.push(self.rhs());
        FunctionType::Function(args, self.ret())
    }

    /// The same operator with every known type reduced to a scalar of its scalar type.
    pub fn without_shape(&self) -> (r: BinType)
        ensures
            r == self.with_types(
                drop_shape(self.spec_lhs()),
                drop_shape(self.spec_rhs()),
                drop_shape(self.spec_ret()),
            ),
    {
        let l = scalar_shape_of(self.lhs());
        let r = scalar_shape_of(self.rhs());
        let t = scalar_shape_of(self.ret());
        self.with_types_exec(l, r, t)
    }

    /// The result type of `=`: a type already recorded is kept; otherwise operands of
    /// compatible shapes give `bool`.
    pub fn infer_bin_ty_eq(&self) -> (r: Result<Option<Type>, TypeError>)
        ensures
            r == infer_eq(*self),
    {
        if let Some(ret) = self.ret() {
            return Ok(Some(ret));
        }
        let lhs = self.lhs();
        let rhs = self.rhs();
        if !lhs.is_shape_compatible(&rhs) {
            return Err(TypeError::IncompatibleShapes { ty: lhs, new_ty: rhs });
        }
        match self.without_shape() {
            BinType::Eq(_, _, _) => Ok(Some(Type::Scalar(Some(ScalarType::Bool)))),
            _ => Err(TypeError::IncompatibleBinOp { bin_ty: *self }),
        }
    }

    /// The result type of `+`.
    pub fn infer_bin_ty_add(&self) -> (r: Result<Option<Type>, TypeError>)
        ensures
            r == infer_arith(*self, self is Add),
    {
        if let Some(ret) = self.ret() {
            return Ok(Some(ret));
        }
        if !self.lhs().is_scalar() || !self.rhs().is_scalar() {
            return Err(TypeError::IncompatibleBinOp { bin_ty: *self });
        }
        match self {
            BinType::Add(_, _, _) => Ok(None),
            _ => Err(TypeError::IncompatibleBinOp { bin_ty: *self }),
        }
    }

    /// The result type of `-`.
    pub fn infer_bin_ty_sub(&self) -> (r: Result<Option<Type>, TypeError>)
        ensures
            r == infer_arith(*self, self is Sub),
    {
        if let Some(ret) = self.ret() {
            return Ok(Some(ret));
        }
        if !self.lhs().is_scalar() || !self.rhs().is_scalar() {
            return Err(TypeError::IncompatibleBinOp { bin_ty: *self });
        }
        match self {
            BinType::Sub(_, _, _) => Ok(None),
            _ => Err(TypeError::IncompatibleBinOp { bin_ty: *self }),
        }
    }

    /// The result type of `*`.
    pub fn infer_bin_ty_mul(&self) -> (r: Result<Option<Type>, TypeError>)
        ensures
            r == infer_arith(*self, self is Mul),
    {
        if let Some(ret) = self.ret() {
            return Ok(Some(ret));
        }
        if !self.lhs().is_scalar() || !self.rhs().is_scalar() {
            return Err(TypeError::IncompatibleBinOp { bin_ty: *self });
        }
        match self {
            BinType::Mul(_, _, _) => Ok(None),
            _ => Err(TypeError::IncompatibleBinOp { bin_ty: *self }),
        }
    }

    /// The result type of `^`: a scalar raised to an `int` power keeps the type of the base.
    pub fn infer_bin_ty_exp(&self) -> (r: Result<Option<Type>, TypeError>)
        ensures
            r == (if (self.spec_lhs() matches Some(Type::Scalar(_))) && scalar_of(self.spec_rhs())
                == Some(ScalarType::Int) {
                Ok(self.spec_lhs())
            } else {
                Err(TypeError::IncompatibleBinOp { bin_ty: *self })
            }),
    {
        if !self.lhs().is_scalar() || !self.rhs().is_scalar_int() {
            return Err(TypeError::IncompatibleBinOp { bin_ty: *self });
        }
        Ok(self.lhs())
    }
}

/// A known type reduced to a scalar of the same scalar type.
pub open spec fn drop_shape(t: Option<Type>) -> Option<Type> {
    match t {
        Some(t) => with_shape(t, Some(Type::Scalar(None))),
        None => None,
    }
}

fn scalar_shape_of(t: Option<Type>) -> (r: Option<Type>)
    ensures
        r == drop_shape(t),
{
    match t {
        Some(t) => t.ty_with_shape(Some(Type::Scalar(None))),
        None => None,
    }
}

/// What `=` infers: a recorded result type wins; operands of incompatible shapes are an
/// error; otherwise the result is `bool`, for the `=` operator only.
pub open spec fn infer_eq(b: BinType) -> Result<Option<Type>, TypeError> {
    if b.spec_ret() is Some {
        Ok(b.spec_ret())
    } else if !shape_compatible(b.spec_lhs(), b.spec_rhs()) {
        Err(TypeError::IncompatibleShapes { ty: b.spec_lhs(), new_ty: b.spec_rhs() })
    } else if b is Eq {
        Ok(Some(Type::Scalar(Some(ScalarType::Bool))))
    } else {
        Err(TypeError::IncompatibleBinOp { bin_ty: b })
    }
}

/// What `+`, `-` and `*` infer: a recorded result type wins; two known scalar operands of
/// the matching operator leave the result unknown; anything else is an error.
pub open spec fn infer_arith(b: BinType, right_op: bool) -> Result<Option<Type>, TypeError> {
    if b.spec_ret() is Some {
        Ok(b.spec_ret())
    } else if (b.spec_lhs() matches Some(Type::Scalar(_))) && (b.spec_rhs() matches Some(
        Type::Scalar(_),
    )) && right_op {
        Ok(None)
    } else {
        Err(TypeError::IncompatibleBinOp { bin_ty: b })
    }
}

/// What a name stands for: a value of some type, or something callable.
#[derive(Debug, Clone, PartialEq, Eq)]
pub enum Kind {
    Value(Option<Type>),
    Callable(FunctionType),
}


/// Every type is a subtype of itself.
pub proof fn lemma_subtype_reflexive(t: Option<Type>)
    ensures
        subtype(t, t),
        compatible(t, t),
{
}

/// A subtype is always compatible: compatibility only adds the `felt` to `bool` conversion.
pub proof fn lemma_subtype_implies_compatible(a: Option<Type>, b: Option<Type>)
    requires
        subtype(a, b),
    ensures
        compatible(a, b),
{
}

/// Shape compatibility does not depend on the order of the two types.
pub proof fn lemma_shape_compatible_symmetric(a: Option<Type>, b: Option<Type>)
    ensures
        shape_compatible(a, b) == shape_compatible(b, a),
{
}

/// Any two known scalar types are ordered one way or the other, and both ways only when
/// they are the same.
pub proof fn lemma_scalar_subtype_total(a: ScalarType, b: ScalarType)
    ensures
        scalar_subtype(Some(a), Some(b)) || scalar_subtype(Some(b), Some(a)),
        scalar_subtype(Some(a), Some(b)) && scalar_subtype(Some(b), Some(a)) ==> a == b,
{
}

/// Whether a type has a known scalar type and no wildcard dimension.
pub open spec fn fully_known(t: Option<Type>) -> bool {
    match t {
        Some(Type::Scalar(s)) => s is Some,
        Some(Type::Vector(s, l)) => s is Some && l != wildcard_dim(),
        Some(Type::Matrix(s, r, c)) => s is Some && r != wildcard_dim() && c != wildcard_dim(),
        None => false,
    }
}

/// Subtyping is transitive through a type that is fully known (an unknown scalar type or a
/// wildcard dimension in the middle would relate anything to anything).
pub proof fn lemma_subtype_transitive(a: Option<Type>, b: Option<Type>, c: Option<Type>)
    requires
        fully_known(b),
        subtype(a, b),
        subtype(b, c),
    ensures
        subtype(a, c),
{
}

/// The conversion from `felt` to `bool` is the one compatibility that is not a subtype.
pub proof fn lemma_compatible_not_subtype(a: Option<Type>, b: Option<Type>)
    requires
        compatible(a, b),
        !subtype(a, b),
    ensures
        scalar_of(a) == Some(ScalarType::Felt),
        scalar_of(b) == Some(ScalarType::Bool),
{
}

/// An equality with no recorded result type, between operands of compatible shapes,
/// always has type `bool`.
pub proof fn lemma_eq_infers_bool(l: Option<Type>, r: Option<Type>)
    requires
        shape_compatible(l, r),
    ensures
        infer_eq(BinType::Eq(l, r, None)) == Ok::<Option<Type>, TypeError>(
            Some(Type::Scalar(Some(ScalarType::Bool))),
        ),
{
}

} // verus!
