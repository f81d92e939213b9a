//! Types as the AirScript syntax tree records them, and what indexing into a value of a
//! type produces.
use vstd::prelude::*;

verus! {

/// Turns a wrapped, possibly absent value into an `Option`.
pub trait Mappable<T>: Sized {
    spec fn as_option(self) -> Option<T>;

    fn into_option(self) -> (r: Option<T>)
        ensures
            r == self.as_option(),
    ;
}

impl<T> Mappable<T> for Option<T> {
    open spec fn as_option(self) -> Option<T> {
        self
    }

    fn into_option(self) -> (r: Option<T>) {
        self
    }
}

impl<T, E> Mappable<T> for Result<Option<T>, E> {
    /// An error counts as absent.
    open spec fn as_option(self) -> Option<T> {
        match self {
            Ok(o) => o,
            Err(_) => None,
        }
    }

    fn into_option(self) -> (r: Option<T>) {
        match self {
            Ok(o) => o,
            Err(_) => None,
        }
    }
}

impl Mappable<Type> for Type {
    open spec fn as_option(self) -> Option<Type> {
        Some(self)
    }

    fn into_option(self) -> (r: Option<Type>) {
        Some(self)
    }
}

/// Scalar types of the syntax tree.
#[derive(Hash, Debug, Copy, Clone, PartialEq, Eq, Structural)]
pub enum ScalarType {
    /// An untyped value, used for type inference
    Untyped,
    /// A field element
    Felt,
    /// A boolean value
    Bool,
    /// An unsigned integer, used to index into aggregates; always a constant
    Uint,
}

impl Default for ScalarType {
    fn default() -> (r: Self)
        ensures
            r == ScalarType::Untyped,
    {
        ScalarType::Untyped
    }
}

/// The types of values which can be represented in an AirScript program
#[derive(Hash, Debug, Copy, Clone, PartialEq, Eq, Structural)]
pub enum Type {
    /// A scalar
    Scalar(ScalarType),
    /// A vector of N elements
    Vector(ScalarType, usize),
    /// A matrix of N rows and M columns
    Matrix(ScalarType, usize, usize),
}

/// A range with constant bounds, `start..end`.
#[derive(Hash, Debug, Copy, Clone, PartialEq, Eq, Structural)]
pub struct RangeExpr {
    pub start: usize,
    pub end: usize,
}

impl RangeExpr {
    /// The number of elements in the range (none when it is empty or reversed).
    pub open spec fn spec_len(self) -> nat {
        if self.start <= self.end {
            (self.end - self.start) as nat
        } else {
            0
        }
    }

    pub fn len(&self) -> (r: usize)
        ensures
            r == self.spec_len(),
    {
        if self.start <= self.end {
            self.end - self.start
        } else {
            0
        }
    }
}

/// How a value is accessed.
#[derive(Hash, Debug, Copy, Clone, PartialEq, Eq, Structural)]
pub enum AccessType {
    /// The value itself
    Default,
    /// A contiguous range of the elements (or rows)
    Slice(RangeExpr),
    /// One element (or row)
    Index(usize),
    /// One element of a matrix, by row and column
    Matrix(usize, usize),
}

/// Why an access is invalid.
#[derive(Hash, Debug, Copy, Clone, PartialEq, Eq, Structural)]
pub enum InvalidAccessError {
    IndexIntoScalar,
    IndexOutOfBounds,
}

/// The type produced by accessing a value of type `t`.
pub open spec fn access_result(t: Type, a: AccessType) -> Result<Type, InvalidAccessError> {
    match (t, a) {
        (_, AccessType::Default) => Ok(t),
        (Type::Scalar(_), _) => Err(InvalidAccessError::IndexIntoScalar),
        (Type::Vector(sty, len), AccessType::Slice(range)) => if range.end > len {
            Err(InvalidAccessError::IndexOutOfBounds)
        } else {
            Ok(Type::Vector(sty, range.spec_len() as usize))
        },
        (Type::Vector(sty, len), AccessType::Index(idx)) => if idx >= len {
            Err(InvalidAccessError::IndexOutOfBounds)
        } else {
            Ok(Type::Scalar(sty))
        },
        (Type::Vector(_, _), AccessType::Matrix(_, _)) => Err(InvalidAccessError::IndexIntoScalar),
        (Type::Matrix(sty, rows, cols), AccessType::Slice(range)) => if range.end > rows {
            Err(InvalidAccessError::IndexOutOfBounds)
        } else {
            Ok(Type::Matrix(sty, range.spec_len() as usize, cols))
        },
        (Type::Matrix(sty, rows, cols), AccessType::Index(idx)) => if idx >= rows {
            Err(InvalidAccessError::IndexOutOfBounds)
        } else {
            Ok(Type::Vector(sty, cols))
        },
        (Type::Matrix(sty, rows, cols), AccessType::Matrix(row, col)) => if row >= rows || col
            >= cols {
            Err(InvalidAccessError::IndexOutOfBounds)
        } else {
            Ok(Type::Scalar(sty))
        },
    }
}

/// The scalar type of a type.
pub open spec fn scalar_of(t: Type) -> ScalarType {
    match t {
        Type::Scalar(s) => s,
        Type::Vector(s, _) => s,
        Type::Matrix(s, _, _) => s,
    }
}

impl Type {
    /// Returns true if this type is an aggregate
    pub fn is_aggregate(&self) -> (r: bool)
        ensures
            r == !(*self is Scalar),
    {
        match self {
            Type::Scalar(_) => false,
            Type::Vector(..) | Type::Matrix(..) => true,
        }
    }

    /// Returns true if this type is a scalar
    pub fn is_scalar(&self) -> (r: bool)
        ensures
            r == (*self is Scalar),
    {
        match self {
            Type::Scalar(_) => true,
            _ => false,
        }
    }

    /// Returns true if this type is a valid iterable in a comprehension
    pub fn is_iterable(&self) -> (r: bool)
        ensures
            r == (*self is Vector),
    {
        self.is_vector()
    }

    /// Returns true if this type is a vector
    pub fn is_vector(&self) -> (r: bool)
        ensures
            r == (*self is Vector),
    {
        match self {
            Type::Vector(..) => true,
            _ => false,
        }
    }

    /// The type of the value produced by the given access
    pub fn access(&self, access_type: AccessType) -> (r: Result<Self, InvalidAccessError>)
        ensures
            r == access_result(*self, access_type),
    {
        if let AccessType::Default = access_type {
            return Ok(*self);
        }
        match *self {
            Type::Scalar(_) => Err(InvalidAccessError::IndexIntoScalar),
            Type::Vector(sty, len) => match access_type {
                AccessType::Slice(range) => {
                    if range.end > len {
                        Err(InvalidAccessError::IndexOutOfBounds)
                    } else {
                        Ok(Type::Vector(sty, range.len()))
                    }
                },
                AccessType::Index(idx) => {
                    if idx >= len {
                        Err(InvalidAccessError::IndexOutOfBounds)
                    } else {
                        Ok(Type::Scalar(sty))
                    }
                },
                _ => Err(InvalidAccessError::IndexIntoScalar),
            },
            Type::Matrix(sty, rows, cols) => match access_type {
                AccessType::Slice(range) => {
                    if range.end > rows {
                        Err(InvalidAccessError::IndexOutOfBounds)
                    } else {
                        Ok(Type::Matrix(sty, range.len(), cols))
                    }
                },
                AccessType::Index(idx) => {
                    if idx >= rows {
                        Err(InvalidAccessError::IndexOutOfBounds)
                    } else {
                        Ok(Type::Vector(sty, cols))
                    }
                },
                AccessType::Matrix(row, col) => {
                    if row >= rows || col >= cols {
                        Err(InvalidAccessError::IndexOutOfBounds)
                    } else {
                        Ok(Type::Scalar(sty))
                    }
                },
                _ => Ok(*self),
            },
        }
    }
}

/// The scalar type that typing assumes for a value of unknown type.
pub open spec fn scalar_or_felt(t: Option<Type>) -> ScalarType {
    match t {
        Some(t) => scalar_of(t),
        None => ScalarType::Felt,
    }
}

/// Scalar types agree when equal, when either is untyped, or for `felt` and `bool`.
pub open spec fn scalars_agree(l: ScalarType, r: ScalarType) -> bool {
    l == r || l == ScalarType::Untyped || r == ScalarType::Untyped || (l == ScalarType::Felt && r
        == ScalarType::Bool) || (l == ScalarType::Bool && r == ScalarType::Felt)
}

/// Types agree when either is unknown, or they have the same shape and agreeing scalar types.
pub open spec fn types_agree(a: Option<Type>, b: Option<Type>) -> bool {
    match (a, b) {
        (None, _) => true,
        (_, None) => true,
        (Some(Type::Scalar(l)), Some(Type::Scalar(r))) => scalars_agree(l, r),
        (Some(Type::Vector(l, ll)), Some(Type::Vector(r, rl))) => scalars_agree(l, r) && ll == rl,
        (Some(Type::Matrix(l, lr, lc)), Some(Type::Matrix(r, rr, rc))) => scalars_agree(l, r) && lr
            == rr && lc == rc,
        _ => false,
    }
}

fn scalar_of_exec(t: Option<Type>) -> (r: ScalarType)
    ensures
        r == scalar_or_felt(t),
{
    match t {
        Some(Type::Scalar(s)) => s,
        Some(Type::Vector(s, _)) => s,
        Some(Type::Matrix(s, _, _)) => s,
        None => ScalarType::Felt,
    }
}

fn scalars_agree_exec(l: ScalarType, r: ScalarType) -> (b: bool)
    ensures
        b == scalars_agree(l, r),
{
    match (l, r) {
        (ScalarType::Untyped, _) | (_, ScalarType::Untyped) => true,
        (ScalarType::Felt, ScalarType::Bool) | (ScalarType::Bool, ScalarType::Felt) => true,
        (ScalarType::Felt, ScalarType::Felt) => true,
        (ScalarType::Bool, ScalarType::Bool) => true,
        (ScalarType::Uint, ScalarType::Uint) => true,
        _ => false,
    }
}

/// Anything the syntax tree can give a (possibly unknown) type.
pub trait Typed {
    spec fn typ(&self) -> Option<Type>;

    fn ty(&self) -> (r: Option<Type>)
        ensures
            r == self.typ(),
    ;

    /// The scalar type; `felt` when the type is unknown.
    fn scalar_ty(&self) -> (r: ScalarType)
        ensures
            r == scalar_or_felt(self.typ()),
    {
        scalar_of_exec(self.ty())
    }

    fn is_scalar_compatible(&self, other: &Self) -> (r: bool)
        ensures
            r == scalars_agree(scalar_or_felt(self.typ()), scalar_or_felt(other.typ())),
    {
        scalars_agree_exec(scalar_of_exec(self.ty()), scalar_of_exec(other.ty()))
    }

    fn is_compatible(&self, other: &Self) -> (r: bool)
        ensures
            r == types_agree(self.typ(), other.typ()),
    {
        match (self.ty(), other.ty()) {
            (None, _) | (_, None) => true,
            (Some(Type::Scalar(l)), Some(Type::Scalar(r))) => scalars_agree_exec(l, r),
            (Some(Type::Vector(l, ll)), Some(Type::Vector(r, rl))) => scalars_agree_exec(l, r) && ll
                == rl,
            (Some(Type::Matrix(l, lr, lc)), Some(Type::Matrix(r, rr, rc))) => scalars_agree_exec(
                l,
                r,
            ) && lr == rr && lc == rc,
            _ => false,
        }
    }
}

impl<T: Typed> Typed for Option<T> {
    open spec fn typ(&self) -> Option<Type> {
        match self {
            Some(t) => t.typ(),
            None => None,
        }
    }

    fn ty(&self) -> (r: Option<Type>) {
        match self {
            Some(t) => t.ty(),
            None => None,
        }
    }
}

impl<T: Typed, E> Typed for Result<T, E> {
    open spec fn typ(&self) -> Option<Type> {
        match self {
            Ok(t) => t.typ(),
            Err(_) => None,
        }
    }

    fn ty(&self) -> (r: Option<Type>) {
        match self {
            Ok(t) => t.ty(),
            Err(_) => None,
        }
    }
}

impl Typed for ScalarType {
    open spec fn typ(&self) -> Option<Type> {
        Some(Type::Scalar(*self))
    }

    fn ty(&self) -> (r: Option<Type>) {
        Some(Type::Scalar(*self))
    }
}

impl Typed for Type {
    open spec fn typ(&self) -> Option<Type> {
        Some(*self)
    }

    fn ty(&self) -> (r: Option<Type>) {
        Some(*self)
    }
}

/// The type of a trace segment binding: a name bound to `size` columns.
#[derive(Hash, Debug, Copy, Clone, PartialEq, Eq, Structural)]
pub struct TraceSegment {
    pub id: usize,
    pub size: usize,
}

/// Represents the type signature of a function
#[derive(Debug, Clone, PartialEq, Eq)]
pub enum FunctionType {
    /// An evaluator function, which has no results, and has
    /// a complex type signature due to the nature of trace bindings
    Evaluator(Vec<TraceSegment>),
    /// A standard function with one or more inputs, and a result
    Function(Vec<Type>, Type),
}

impl FunctionType {
    pub fn result(&self) -> (r: Option<Type>)
        ensures
            r == (match self {
                FunctionType::Evaluator(_) => None,
                FunctionType::Function(_, result) => Some(*result),
            }),
    {
        match self {
            FunctionType::Evaluator(_) => None,
            FunctionType::Function(_, result) => Some(*result),
        }
    }
}

/// An access never changes the scalar type, and the default access changes nothing.
pub proof fn lemma_access_keeps_scalar_type(t: Type, a: AccessType)
    ensures
        access_result(t, AccessType::Default) == Ok::<Type, InvalidAccessError>(t),
        access_result(t, a) matches Ok(u) ==> scalar_of(u) == scalar_of(t),
{
}

/// Accessing one element of a vector, one row of a matrix, or one matrix element lowers the
/// shape by one level (down to a scalar), and any non-default access of a scalar fails.
pub proof fn lemma_access_lowers_shape(t: Type, a: AccessType)
    requires
        a is Index || a is Matrix,
        access_result(t, a) is Ok,
    ensures
        t is Vector ==> access_result(t, a) matches Ok(Type::Scalar(_)),
        t is Matrix && a is Index ==> access_result(t, a) matches Ok(Type::Vector(_, _)),
        t is Matrix && a is Matrix ==> access_result(t, a) matches Ok(Type::Scalar(_)),
        !(t is Scalar),
{
}

/// Agreement of types does not depend on their order.
pub proof fn lemma_types_agree_symmetric(a: Option<Type>, b: Option<Type>)
    ensures
        types_agree(a, b) == types_agree(b, a),
{
}


/// Indexing a row of a matrix and then an element of that row is accessing that element of
/// the matrix: both succeed together, with the same type; the row has one element per column.
pub proof fn lemma_row_then_element(sty: ScalarType, rows: usize, cols: usize, i: usize, j: usize)
    ensures
        access_result(Type::Matrix(sty, rows, cols), AccessType::Matrix(i, j)) == match access_result(
            Type::Matrix(sty, rows, cols),
            AccessType::Index(i),
        ) {
            Ok(row) => access_result(row, AccessType::Index(j)),
            Err(e) => Err(e),
        },
        i < rows ==> (access_result(Type::Matrix(sty, rows, cols), AccessType::Index(i)) matches Ok(
            row,
        ) && (forall|k: usize| access_result(row, AccessType::Index(k)) is Ok <==> k < cols)),
{
}

/// A slice of a vector, or of a matrix's rows, succeeds exactly when its end is within the
/// vector's length (the matrix's rows); a slice taken in order then holds one element (row) per
/// place of the range, and its element at place `i` has the type of the original's element at
/// the range's start plus `i`.
pub proof fn lemma_slice_then_index(t: Type, range: RangeExpr, i: usize)
    requires
        !(t is Scalar),
    ensures
        ({
            let outer: usize = match t {
                Type::Vector(_, n) => n,
                Type::Matrix(_, rows, _) => rows,
                Type::Scalar(_) => 0,
            };
            &&& (access_result(t, AccessType::Slice(range)) is Ok <==> range.end <= outer)
            &&& (range.start <= range.end && range.end <= outer) ==> (access_result(
                t,
                AccessType::Slice(range),
            ) matches Ok(u) && (access_result(u, AccessType::Index(i)) is Ok <==> i < range.end
                - range.start) && (i < range.end - range.start ==> access_result(
                u,
                AccessType::Index(i),
            ) == access_result(t, AccessType::Index((range.start + i) as usize))))
        }),
{
}

} // verus!
