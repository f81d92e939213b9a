//! The symbol table of an AIR: every declared identifier with what it names, kept unique, and
//! the declarations that make up the AIR (segment widths, constants, public inputs, periodic
//! columns).
use vstd::prelude::*;

verus! {

/// The smallest cycle a periodic column may have.
pub const MIN_CYCLE_LENGTH: usize = 2;

/// A trace segment, by index.
pub type TraceSegment = u8;

/// The declared value of a constant.
#[derive(Debug)]
pub enum ConstantType {
    Scalar(u64),
    Vector(Vec<u64>),
    Matrix(Vec<Vec<u64>>),
}

/// The rows of a matrix, as sequences.
pub open spec fn matrix_view(m: Seq<Vec<u64>>) -> Seq<Seq<u64>> {
    Seq::new(m.len(), |r: int| m[r]@)
}

/// Two constant values are the same.
pub open spec fn same_constant(a: ConstantType, b: ConstantType) -> bool {
    match (a, b) {
        (ConstantType::Scalar(x), ConstantType::Scalar(y)) => x == y,
        (ConstantType::Vector(v), ConstantType::Vector(w)) => v@ == w@,
        (ConstantType::Matrix(m), ConstantType::Matrix(n)) => matrix_view(m@) == matrix_view(n@),
        _ => false,
    }
}

impl ConstantType {
    /// A copy of the value.
    pub fn copy(&self) -> (r: ConstantType)
        ensures
            same_constant(r, *self),
    {
        match self {
            ConstantType::Scalar(x) => ConstantType::Scalar(*x),
            ConstantType::Vector(v) => ConstantType::Vector(copy_values(v)),
            ConstantType::Matrix(m) => {
                let mut rows: Vec<Vec<u64>> = Vec::new();
                let mut r: usize = 0;
                while r < m.len()
                    invariant
                        r <= m@.len(),
                        rows@.len() == r,
                        forall|j: int| 0 <= j < r ==> #[trigger] rows@[j]@ == m@[j]@,
                    decreases m@.len() - r,
                {
                    rows.push(copy_values(&m[r]));
                    r = r + 1;
                }
                assert(matrix_view(rows@) =~= matrix_view(m@));
                ConstantType::Matrix(rows)
            },
        }
    }
}

/// A copy of a list of values.
fn copy_values(v: &Vec<u64>) -> (r: Vec<u64>)
    ensures
        r@ == v@,
{
    let mut r: Vec<u64> = Vec::new();
    let mut k: usize = 0;
    while k < v.len()
        invariant
            k <= v@.len(),
            r@ == v@.subrange(0, k as int),
        decreases v@.len() - k,
    {
        r.push(v[k]);
        k = k + 1;
        assert(r@ =~= v@.subrange(0, k as int));
    }
    assert(v@.subrange(0, k as int) =~= v@);
    r
}

/// A declared constant.
#[derive(Debug)]
pub struct Constant {
    pub name: String,
    pub value: ConstantType,
}

/// Trace columns bound to one identifier: their segment, the index of the first one and their
/// number.
#[derive(Debug, Clone, Copy, PartialEq, Eq, Structural)]
pub struct TraceColumns {
    pub trace_segment: TraceSegment,
    pub offset: usize,
    pub size: usize,
}

/// The shape of the value of an integrity variable.
#[derive(Debug)]
pub enum VariableType {
    Scalar,
    /// A vector, by its length
    Vector(usize),
    /// A matrix, by the length of each row
    Matrix(Vec<usize>),
    ListComprehension,
}

/// An integrity variable.
#[derive(Debug)]
pub struct Variable {
    pub name: String,
    pub value: VariableType,
}

/// What an identifier names.
#[derive(Debug)]
pub enum IdentifierType {
    /// A constant, with its value
    Constant(ConstantType),
    /// Trace columns
    TraceColumns(TraceColumns),
    /// A public input, with the size of its array
    PublicInput(usize),
    /// A periodic column, with its index among the periodic columns and its cycle length
    PeriodicColumn(usize, usize),
    /// An integrity variable
    IntegrityVariable(Variable),
}

/// A declared group of trace columns.
#[derive(Debug)]
pub struct TraceCols {
    pub name: String,
    pub size: u64,
}

/// A declared public input.
#[derive(Debug)]
pub struct PublicInput {
    pub name: String,
    pub size: usize,
}

/// A declared periodic column.
#[derive(Debug)]
pub struct PeriodicColumn {
    pub name: String,
    pub values: Vec<u64>,
}

/// An access to one element of a vector.
#[derive(Debug)]
pub struct VectorAccess {
    pub name: String,
    pub idx: usize,
}

/// An access to one element of a matrix.
#[derive(Debug)]
pub struct MatrixAccess {
    pub name: String,
    pub row_idx: usize,
    pub col_idx: usize,
}

/// Why a declaration or an access is invalid; each error carries the identifier concerned.
#[derive(Debug)]
pub enum SemanticError {
    /// The identifier was declared already
    DuplicateIdentifier(String),
    /// The identifier was not declared
    InvalidIdentifier(String),
    /// The cycle of the periodic column is not a power of two of at least `MIN_CYCLE_LENGTH`:
    /// the column and its cycle length
    InvalidPeriodicColumn(String, usize),
    /// The rows of the matrix constant do not all have the same length
    InvalidConstant(String),
    /// The index is beyond the public input: the input, the index and its size
    PublicInputsOutOfBounds(String, usize, usize),
    /// The identifier does not name a vector
    InvalidVectorAccess(String),
    /// The index is beyond the vector: the vector, the index and its length
    VectorAccessOutOfBounds(String, usize, usize),
    /// The identifier does not name a matrix
    InvalidMatrixAccess(String),
    /// An index is beyond the matrix: the matrix, the row and column indices, and its numbers
    /// of rows and of columns
    MatrixAccessOutOfBounds(String, usize, usize, usize, usize),
}

/// What `name` names among `ids`, searching from the last entry.
pub open spec fn lookup(ids: Seq<(String, IdentifierType)>, name: Seq<char>) -> Option<IdentifierType>
    decreases ids.len(),
{
    if ids.len() == 0 {
        None
    } else if ids.last().0@ == name {
        Some(ids.last().1)
    } else {
        lookup(ids.drop_last(), name)
    }
}

/// No name occurs twice among `ids`.
pub open spec fn unique_names(ids: Seq<(String, IdentifierType)>) -> bool {
    forall|i: int, j: int| 0 <= i < j < ids.len() ==> ids[i].0@ != ids[j].0@
}

/// The entry of a name is where a lookup finds it.
proof fn lemma_lookup_at(ids: Seq<(String, IdentifierType)>, i: int)
    requires
        unique_names(ids),
        0 <= i < ids.len(),
    ensures
        lookup(ids, ids[i].0@) == Some(ids[i].1),
    decreases ids.len(),
{
    if i < ids.len() - 1 {
        assert(ids.drop_last()[i] == ids[i]);
        lemma_lookup_at(ids.drop_last(), i);
    }
}

/// A name that no entry has is not found.
proof fn lemma_lookup_absent(ids: Seq<(String, IdentifierType)>, name: Seq<char>)
    requires
        forall|i: int| 0 <= i < ids.len() ==> ids[i].0@ != name,
    ensures
        lookup(ids, name) is None,
    decreases ids.len(),
{
    if ids.len() > 0 {
        lemma_lookup_absent(ids.drop_last(), name);
    }
}

/// A found name has an entry.
proof fn lemma_lookup_found(ids: Seq<(String, IdentifierType)>, name: Seq<char>)
    requires
        lookup(ids, name) is Some,
    ensures
        exists|i: int| 0 <= i < ids.len() && ids[i].0@ == name && ids[i].1 == lookup(ids, name).unwrap(),
    decreases ids.len(),
{
    if ids.last().0@ != name {
        lemma_lookup_found(ids.drop_last(), name);
        let i = choose|i: int|
            0 <= i < ids.drop_last().len() && ids.drop_last()[i].0@ == name && ids.drop_last()[i].1
                == lookup(ids.drop_last(), name).unwrap();
        assert(ids[i] == ids.drop_last()[i]);
    } else {
        assert(ids[ids.len() - 1] == ids.last());
    }
}

/// What `name` names after inserting `entries`, in order, into `ids`: the last entry for it,
/// or what it named in `ids`.
pub open spec fn after_inserts(
    ids: Seq<(String, IdentifierType)>,
    entries: Seq<(Seq<char>, IdentifierType)>,
    name: Seq<char>,
) -> Option<IdentifierType>
    decreases entries.len(),
{
    if entries.len() == 0 {
        lookup(ids, name)
    } else if entries.last().0 == name {
        Some(entries.last().1)
    } else {
        after_inserts(ids, entries.drop_last(), name)
    }
}

/// The name at position `p` is declared already, in `ids` or earlier among `names`.
pub open spec fn dup_at(ids: Seq<(String, IdentifierType)>, names: Seq<Seq<char>>, p: int) -> bool {
    lookup(ids, names[p]) is Some || names.subrange(0, p).contains(names[p])
}

/// The first position among `names` where declaring fails, if any: the entry there is not
/// valid, or its name is declared already.
pub open spec fn first_fail(
    ids: Seq<(String, IdentifierType)>,
    names: Seq<Seq<char>>,
    valid: Seq<bool>,
) -> Option<int>
    decreases names.len(),
{
    if names.len() == 0 {
        None
    } else {
        match first_fail(ids, names.drop_last(), valid) {
            Some(p) => Some(p),
            None => if !valid[names.len() - 1] || dup_at(ids, names, names.len() - 1) {
                Some(names.len() - 1)
            } else {
                None
            },
        }
    }
}

/// Every entry is valid.
pub open spec fn all_valid(n: nat) -> Seq<bool> {
    Seq::new(n, |i: int| true)
}

/// Declaring the first `n` names fails where declaring all of them does, when it fails among
/// the first `n`.
proof fn lemma_first_fail_extend(
    ids: Seq<(String, IdentifierType)>,
    names: Seq<Seq<char>>,
    valid: Seq<bool>,
    n: int,
)
    requires
        0 <= n <= names.len(),
        first_fail(ids, names.subrange(0, n), valid) is Some,
    ensures
        first_fail(ids, names, valid) == first_fail(ids, names.subrange(0, n), valid),
    decreases names.len() - n,
{
    if n < names.len() {
        assert(names.subrange(0, n + 1).drop_last() =~= names.subrange(0, n));
        lemma_first_fail_extend(ids, names, valid, n + 1);
    } else {
        assert(names.subrange(0, n) =~= names);
    }
}

/// One step of `first_fail` on a prefix.
proof fn lemma_first_fail_step(
    ids: Seq<(String, IdentifierType)>,
    names: Seq<Seq<char>>,
    valid: Seq<bool>,
    i: int,
)
    requires
        0 <= i < names.len(),
        first_fail(ids, names.subrange(0, i), valid) is None,
    ensures
        first_fail(ids, names.subrange(0, i + 1), valid) == if !valid[i] || dup_at(ids, names, i) {
            Some(i)
        } else {
            None::<int>
        },
{
    let pre = names.subrange(0, i + 1);
    assert(pre.drop_last() =~= names.subrange(0, i));
    assert(pre.subrange(0, i) =~= names.subrange(0, i));
    assert(pre[i] == names[i]);
}

/// After inserting entries whose names are `names`, a name is declared when it was before or
/// is among them.
proof fn lemma_after_inserts_declared(
    ids: Seq<(String, IdentifierType)>,
    entries: Seq<(Seq<char>, IdentifierType)>,
    names: Seq<Seq<char>>,
    name: Seq<char>,
)
    requires
        entries.len() == names.len(),
        forall|q: int| 0 <= q < entries.len() ==> (#[trigger] entries[q]).0 == names[q],
    ensures
        after_inserts(ids, entries, name) is Some <==> lookup(ids, name) is Some || names.contains(
            name,
        ),
    decreases entries.len(),
{
    if entries.len() > 0 {
        assert forall|q: int| 0 <= q < entries.drop_last().len() implies (
        #[trigger] entries.drop_last()[q]).0 == names.drop_last()[q] by {
            assert(entries.drop_last()[q] == entries[q]);
        }
        lemma_after_inserts_declared(ids, entries.drop_last(), names.drop_last(), name);
        assert(entries.last() == entries[entries.len() - 1]);
        if names.contains(name) {
            let q = choose|q: int| 0 <= q < names.len() && names[q] == name;
            if q < names.len() - 1 {
                assert(names.drop_last()[q] == name);
            }
        }
        if names.drop_last().contains(name) {
            let q = choose|q: int| 0 <= q < names.drop_last().len() && names.drop_last()[q] == name;
            assert(names[q] == name);
        }
    }
}

/// The symbol table.
#[derive(Debug)]
pub struct SymbolTable {
    /// The number of columns of each trace segment
    pub segment_widths: Vec<u16>,
    /// Every declared identifier, with what it names
    pub identifiers: Vec<(String, IdentifierType)>,
    /// The declared constants
    pub constants: Vec<Constant>,
    /// The values of the periodic columns, in order of declaration
    pub periodic_columns: Vec<Vec<u64>>,
    /// The public inputs, with the sizes of their arrays
    pub public_inputs: Vec<(String, usize)>,
}

impl SymbolTable {
    /// No identifier is declared twice.
    pub open spec fn wf(&self) -> bool {
        unique_names(self.identifiers@)
    }

    /// What `name` names, if it is declared.
    pub open spec fn symbol(&self, name: Seq<char>) -> Option<IdentifierType> {
        lookup(self.identifiers@, name)
    }

    /// An empty table.
    pub fn new() -> (t: SymbolTable)
        ensures
            t.wf(),
            t.segment_widths@.len() == 0,
            t.identifiers@.len() == 0,
            t.constants@.len() == 0,
            t.periodic_columns@.len() == 0,
            t.public_inputs@.len() == 0,
            forall|name: Seq<char>| #[trigger] t.symbol(name) is None,
    {
        SymbolTable {
            segment_widths: Vec::new(),
            identifiers: Vec::new(),
            constants: Vec::new(),
            periodic_columns: Vec::new(),
            public_inputs: Vec::new(),
        }
    }

    /// Declares `ident_name` as naming `ident_type`. When the name was declared already, it
    /// now names `ident_type`, and the duplicate is reported.
    pub fn insert_symbol(&mut self, ident_name: &str, ident_type: IdentifierType) -> (r: Result<
        (),
        SemanticError,
    >)
        requires
            old(self).wf(),
        ensures
            final(self).wf(),
            forall|name: Seq<char>|
                #[trigger] final(self).symbol(name) == if name == ident_name@ {
                    Some(ident_type)
                } else {
                    old(self).symbol(name)
                },
            r is Ok <==> old(self).symbol(ident_name@) is None,
            r is Err ==> (r matches Err(SemanticError::DuplicateIdentifier(n)) && n@ == ident_name@),
            final(self).segment_widths == old(self).segment_widths,
            final(self).constants == old(self).constants,
            final(self).periodic_columns == old(self).periodic_columns,
            final(self).public_inputs == old(self).public_inputs,
    {
        let name = ident_name.to_owned();
        let mut i: usize = 0;
        while i < self.identifiers.len() && !(self.identifiers[i].0 == name)
            invariant
                name@ == ident_name@,
                i <= self.identifiers@.len(),
                forall|j: int| 0 <= j < i ==> self.identifiers@[j].0@ != name@,
            decreases self.identifiers@.len() - i,
        {
            i = i + 1;
        }
        let ghost before = self.identifiers@;
        if i < self.identifiers.len() {
            proof {
                lemma_lookup_at(before, i as int);
            }
            let key = name.clone();
            self.identifiers.set(i, (key, ident_type));
            proof {
                assert forall|a: int, b: int| 0 <= a < b < self.identifiers@.len() implies self.identifiers@[a].0@
                    != self.identifiers@[b].0@ by {
                    assert(before[a].0@ != before[b].0@);
                }
                assert forall|k: Seq<char>| #[trigger] self.symbol(k) == if k == ident_name@ {
                    Some(ident_type)
                } else {
                    lookup(before, k)
                } by {
                    if k == ident_name@ {
                        lemma_lookup_at(self.identifiers@, i as int);
                    } else {
                        lemma_lookup_same(before, self.identifiers@, k);
                    }
                }
            }
            Err(SemanticError::DuplicateIdentifier(name))
        } else {
            proof {
                lemma_lookup_absent(before, name@);
            }
            self.identifiers.push((name, ident_type));
            proof {
                assert(self.identifiers@.drop_last() =~= before);
                assert forall|a: int, b: int| 0 <= a < b < self.identifiers@.len() implies self.identifiers@[a].0@
                    != self.identifiers@[b].0@ by {
                    if b < before.len() {
                        assert(before[a].0@ != before[b].0@);
                    }
                }
            }
            Ok(())
        }
    }
}

/// Two tables whose entries differ only in what one name names agree on every other name.
proof fn lemma_lookup_same(
    a: Seq<(String, IdentifierType)>,
    b: Seq<(String, IdentifierType)>,
    k: Seq<char>,
)
    requires
        a.len() == b.len(),
        forall|i: int| 0 <= i < a.len() ==> (#[trigger] a[i]).0@ == b[i].0@,
        forall|i: int| 0 <= i < a.len() && a[i].0@ == k ==> (#[trigger] a[i]) == b[i],
    ensures
        lookup(a, k) == lookup(b, k),
    decreases a.len(),
{
    if a.len() > 0 {
        assert(a.last() == a[a.len() - 1]);
        assert(b.last() == b[b.len() - 1]);
        assert forall|i: int| 0 <= i < a.drop_last().len() implies (#[trigger] a.drop_last()[i]).0@
            == b.drop_last()[i].0@ by {
            assert(a.drop_last()[i] == a[i]);
            assert(b.drop_last()[i] == b[i]);
        }
        assert forall|i: int| 0 <= i < a.drop_last().len() && a.drop_last()[i].0@ == k implies (
        #[trigger] a.drop_last()[i]) == b.drop_last()[i] by {
            assert(a.drop_last()[i] == a[i]);
            assert(b.drop_last()[i] == b[i]);
        }
        lemma_lookup_same(a.drop_last(), b.drop_last(), k);
    }
}

/// `n` is a power of two.
pub open spec fn is_pow2(n: nat) -> bool
    decreases n,
{
    if n == 0 {
        false
    } else if n == 1 {
        true
    } else {
        n % 2 == 0 && is_pow2(n / 2)
    }
}

/// Whether `n` is a power of two.
pub fn is_power_of_two(n: usize) -> (r: bool)
    ensures
        r == is_pow2(n as nat),
{
    if n == 0 {
        return false;
    }
    let mut m: usize = n;
    while m > 1 && m % 2 == 0
        invariant
            m >= 1,
            is_pow2(m as nat) == is_pow2(n as nat),
        decreases m,
    {
        m = m / 2;
    }
    m == 1
}

/// Checks the cycle of a periodic column: a power of two, of at least `MIN_CYCLE_LENGTH`.
pub fn validate_cycles(column: &PeriodicColumn) -> (r: Result<(), SemanticError>)
    ensures
        r is Ok <==> is_pow2(column.values@.len()) && column.values@.len() >= MIN_CYCLE_LENGTH,
        r is Err ==> (r matches Err(SemanticError::InvalidPeriodicColumn(n, c)) && n@ == column.name@
            && c == column.values@.len()),
{
    let cycle = column.values.len();
    if !is_power_of_two(cycle) {
        return Err(SemanticError::InvalidPeriodicColumn(column.name.clone(), cycle));
    }
    if cycle < MIN_CYCLE_LENGTH {
        return Err(SemanticError::InvalidPeriodicColumn(column.name.clone(), cycle));
    }
    Ok(())
}

/// The rows of a matrix value all have the length of the first; other values are fine.
pub open spec fn rows_consistent(c: ConstantType) -> bool {
    match c {
        ConstantType::Matrix(m) => forall|i: int|
            1 <= i < m@.len() ==> (#[trigger] m@[i])@.len() == m@[0]@.len(),
        _ => true,
    }
}

/// Checks the value of a constant: the rows of a matrix all have the length of the first.
pub fn validate_constant(constant: &Constant) -> (r: Result<(), SemanticError>)
    requires
        constant.value matches ConstantType::Matrix(m) ==> m@.len() > 0,
    ensures
        r is Ok <==> rows_consistent(constant.value),
        r is Err ==> (r matches Err(SemanticError::InvalidConstant(n)) && n@ == constant.name@),
{
    match &constant.value {
        ConstantType::Matrix(matrix) => {
            let row_len = matrix[0].len();
            let mut i: usize = 1;
            while i < matrix.len()
                invariant
                    1 <= i <= matrix@.len(),
                    row_len == matrix@[0]@.len(),
                    constant.value == ConstantType::Matrix(*matrix),
                    forall|j: int| 1 <= j < i ==> (#[trigger] matrix@[j])@.len() == row_len,
                decreases matrix@.len() - i,
            {
                if matrix[i].len() != row_len {
                    assert((matrix@[i as int])@.len() != matrix@[0]@.len());
                    assert(!rows_consistent(constant.value)) by {
                        if rows_consistent(constant.value) {
                            let m = match constant.value {
                                ConstantType::Matrix(m) => m,
                                _ => arbitrary(),
                            };
                            assert(m@ == matrix@);
                            assert((m@[i as int])@.len() == m@[0]@.len());
                        }
                    }
                    return Err(SemanticError::InvalidConstant(constant.name.clone()));
                }
                i = i + 1;
            }
            Ok(())
        },
        _ => Ok(()),
    }
}

/// Checks that an index is within a vector of length `vector_len`.
pub fn validate_vector_access(vector_access: &VectorAccess, vector_len: usize) -> (r: Result<
    (),
    SemanticError,
>)
    ensures
        r is Ok <==> vector_access.idx < vector_len,
        r is Err ==> (r matches Err(SemanticError::VectorAccessOutOfBounds(n, i, l)) && n@
            == vector_access.name@ && i == vector_access.idx && l == vector_len),
{
    if vector_access.idx >= vector_len {
        return Err(
            SemanticError::VectorAccessOutOfBounds(
                vector_access.name.clone(),
                vector_access.idx,
                vector_len,
            ),
        );
    }
    Ok(())
}

/// Checks that both indices are within a matrix of the given numbers of rows and columns.
pub fn validate_matrix_access(
    matrix_access: &MatrixAccess,
    matrix_row_len: usize,
    matrix_col_len: usize,
) -> (r: Result<(), SemanticError>)
    ensures
        r is Ok <==> matrix_access.row_idx < matrix_row_len && matrix_access.col_idx < matrix_col_len,
        r is Err ==> (r matches Err(SemanticError::MatrixAccessOutOfBounds(n, ri, ci, rl, cl)) && n@
            == matrix_access.name@ && ri == matrix_access.row_idx && ci == matrix_access.col_idx
            && rl == matrix_row_len && cl == matrix_col_len),
{
    if matrix_access.row_idx >= matrix_row_len || matrix_access.col_idx >= matrix_col_len {
        return Err(
            SemanticError::MatrixAccessOutOfBounds(
                matrix_access.name.clone(),
                matrix_access.row_idx,
                matrix_access.col_idx,
                matrix_row_len,
                matrix_col_len,
            ),
        );
    }
    Ok(())
}

/// The names of the public inputs.
pub open spec fn input_names(inputs: Seq<PublicInput>) -> Seq<Seq<char>> {
    Seq::new(inputs.len(), |p: int| inputs[p].name@)
}

/// The declarations of the public inputs.
pub open spec fn input_entries(inputs: Seq<PublicInput>) -> Seq<(Seq<char>, IdentifierType)> {
    Seq::new(inputs.len(), |p: int| (inputs[p].name@, IdentifierType::PublicInput(inputs[p].size)))
}

/// `list` is `before` followed by the names and sizes of the first `n` inputs.
pub open spec fn inputs_recorded(
    list: Seq<(String, usize)>,
    before: Seq<(String, usize)>,
    inputs: Seq<PublicInput>,
    n: int,
) -> bool {
    &&& list.len() == before.len() + n
    &&& list.subrange(0, before.len() as int) == before
    &&& forall|q: int|
        0 <= q < n ==> (#[trigger] list[before.len() + q]).0@ == inputs[q].name@ && list[before.len()
            + q].1 == inputs[q].size
}

impl SymbolTable {
    /// Declares the public inputs, in order, with the sizes of their arrays, and records them.
    /// Stops at the first name declared already.
    pub fn insert_public_inputs(&mut self, public_inputs: &Vec<PublicInput>) -> (r: Result<
        (),
        SemanticError,
    >)
        requires
            old(self).wf(),
        ensures
            final(self).wf(),
            final(self).segment_widths == old(self).segment_widths,
            final(self).constants == old(self).constants,
            final(self).periodic_columns == old(self).periodic_columns,
            ({
                let ids = old(self).identifiers@;
                let names = input_names(public_inputs@);
                let entries = input_entries(public_inputs@);
                match first_fail(ids, names, all_valid(names.len())) {
                    None => {
                        &&& r is Ok
                        &&& forall|k: Seq<char>| #[trigger] final(self).symbol(k) == after_inserts(ids, entries, k)
                        &&& inputs_recorded(
                            final(self).public_inputs@,
                            old(self).public_inputs@,
                            public_inputs@,
                            names.len() as int,
                        )
                    },
                    Some(p) => {
                        &&& (r matches Err(SemanticError::DuplicateIdentifier(n)) && n@ == names[p])
                        &&& forall|k: Seq<char>| #[trigger] final(self).symbol(k) == after_inserts(
                            ids,
                            entries.subrange(0, p + 1),
                            k,
                        )
                        &&& inputs_recorded(
                            final(self).public_inputs@,
                            old(self).public_inputs@,
                            public_inputs@,
                            p,
                        )
                    },
                }
            }),
    {
        let ghost ids = self.identifiers@;
        let ghost names = input_names(public_inputs@);
        let ghost entries = input_entries(public_inputs@);
        let ghost valid = all_valid(names.len());
        let ghost before = self.public_inputs@;
        proof {
            assert(self.public_inputs@.subrange(0, before.len() as int) =~= before);
        }
        let mut i: usize = 0;
        while i < public_inputs.len()
            invariant
                self.wf(),
                ids == old(self).identifiers@,
                names == input_names(public_inputs@),
                entries == input_entries(public_inputs@),
                valid == all_valid(names.len()),
                before == old(self).public_inputs@,
                i <= public_inputs@.len(),
                first_fail(ids, names.subrange(0, i as int), valid) is None,
                forall|k: Seq<char>| #[trigger] self.symbol(k) == after_inserts(ids, entries.subrange(0, i as int), k),
                inputs_recorded(self.public_inputs@, before, public_inputs@, i as int),
                self.segment_widths == old(self).segment_widths,
                self.constants == old(self).constants,
                self.periodic_columns == old(self).periodic_columns,
            decreases public_inputs@.len() - i,
        {
            let input = &public_inputs[i];
            let ghost pre = entries.subrange(0, i as int);
            proof {
                lemma_first_fail_step(ids, names, valid, i as int);
                assert forall|q: int| 0 <= q < pre.len() implies (#[trigger] pre[q]).0 == names.subrange(
                    0,
                    i as int,
                )[q] by {}
                lemma_after_inserts_declared(ids, pre, names.subrange(0, i as int), names[i as int]);
                assert(entries.subrange(0, i + 1).drop_last() =~= pre);
                assert(entries.subrange(0, i + 1).last() == entries[i as int]);
            }
            let ghost st = *self;
            let res = self.insert_symbol(input.name.as_str(), IdentifierType::PublicInput(input.size));
            let ghost mid = *self;
            if res.is_err() {
                proof {
                    lemma_first_fail_extend(ids, names, valid, i + 1);
                }
                return Err(SemanticError::DuplicateIdentifier(input.name.clone()));
            }
            let ghost list = self.public_inputs@;
            self.public_inputs.push((input.name.clone(), input.size));
            proof {
                assert forall|k: Seq<char>| #[trigger] self.symbol(k) == after_inserts(
                    ids,
                    entries.subrange(0, i + 1),
                    k,
                ) by {
                    let full = entries.subrange(0, i + 1);
                    assert(full.drop_last() =~= pre);
                    assert(full.last() == (input.name@, IdentifierType::PublicInput(input.size)));
                    assert(self.symbol(k) == mid.symbol(k));
                    assert(st.symbol(k) == after_inserts(ids, pre, k));
                }
                assert(self.public_inputs@.subrange(0, before.len() as int) =~= list.subrange(
                    0,
                    before.len() as int,
                ));
                assert forall|q: int| 0 <= q < i + 1 implies (#[trigger] self.public_inputs@[before.len()
                    + q]).0@ == public_inputs@[q].name@ && self.public_inputs@[before.len() + q].1
                    == public_inputs@[q].size by {
                    if q < i {
                        assert(self.public_inputs@[before.len() + q] == list[before.len() + q]);
                    }
                }
            }
            i = i + 1;
        }
        proof {
            assert(names.subrange(0, i as int) =~= names);
            assert(entries.subrange(0, i as int) =~= entries);
        }
        Ok(())
    }
}

/// The number of columns of the first `p` groups of trace columns.
pub open spec fn cols_before(trace: Seq<TraceCols>, p: int) -> nat
    decreases p,
{
    if p <= 0 {
        0
    } else {
        cols_before(trace, p - 1) + (trace[p - 1].size as usize) as nat
    }
}

/// The names of the groups of trace columns.
pub open spec fn trace_names(trace: Seq<TraceCols>) -> Seq<Seq<char>> {
    Seq::new(trace.len(), |p: int| trace[p].name@)
}

/// The declarations of the groups of trace columns of a segment: each group starts where the
/// previous one ends.
pub open spec fn trace_entries(seg: TraceSegment, trace: Seq<TraceCols>) -> Seq<(Seq<char>, IdentifierType)> {
    Seq::new(
        trace.len(),
        |p: int|
            (
                trace[p].name@,
                IdentifierType::TraceColumns(
                    TraceColumns {
                        trace_segment: seg,
                        offset: cols_before(trace, p) as usize,
                        size: trace[p].size as usize,
                    },
                ),
            ),
    )
}

/// `w` cut or padded with zeros to length `n`.
pub open spec fn resized(w: Seq<u16>, n: nat) -> Seq<u16> {
    if n <= w.len() {
        w.subrange(0, n as int)
    } else {
        w + Seq::new((n - w.len()) as nat, |i: int| 0u16)
    }
}

/// The segment widths made ready to record segment `seg`: when `seg` is not below their
/// number (taken as a `u8`), they are resized to `seg + 1`.
pub open spec fn widths_for(w: Seq<u16>, seg: TraceSegment) -> Seq<u16> {
    if seg >= (w.len() as u8) {
        resized(w, seg as nat + 1)
    } else {
        w
    }
}

/// Resizes the widths to `n`, padding with zeros.
fn resize_widths(v: &mut Vec<u16>, n: usize)
    ensures
        final(v)@ == resized(old(v)@, n as nat),
{
    while v.len() > n
        invariant
            v@.len() <= old(v)@.len(),
            n <= old(v)@.len() ==> v@ == old(v)@.subrange(0, v@.len() as int) && n <= v@.len(),
            n > old(v)@.len() ==> v@ == old(v)@,
        decreases v@.len(),
    {
        v.pop();
    }
    let ghost mid = v@;
    while v.len() < n
        invariant
            mid.len() <= v@.len() <= n || (v@.len() == mid.len() && mid.len() >= n),
            v@.subrange(0, mid.len() as int) == mid,
            forall|i: int| mid.len() <= i < v@.len() ==> v@[i] == 0u16,
        decreases n - v@.len(),
    {
        v.push(0);
        proof {
            assert(v@.subrange(0, mid.len() as int) =~= mid);
        }
    }
    proof {
        if n <= old(v)@.len() {
            assert(v@ =~= old(v)@.subrange(0, n as int));
        } else {
            assert(v@ =~= old(v)@ + Seq::new((n - old(v)@.len()) as nat, |i: int| 0u16));
        }
    }
}

impl SymbolTable {
    /// Declares the groups of trace columns of segment `trace_segment`, in order, each starting
    /// where the previous one ends, and records the width of the segment. Stops at the first
    /// name declared already, leaving the width unrecorded.
    pub fn insert_trace_columns(&mut self, trace_segment: TraceSegment, trace: &Vec<TraceCols>) -> (r:
        Result<(), SemanticError>)
        requires
            old(self).wf(),
            cols_before(trace@, trace@.len() as int) <= usize::MAX,
        ensures
            final(self).wf(),
            final(self).constants == old(self).constants,
            final(self).periodic_columns == old(self).periodic_columns,
            final(self).public_inputs == old(self).public_inputs,
            ({
                let ids = old(self).identifiers@;
                let names = trace_names(trace@);
                let entries = trace_entries(trace_segment, trace@);
                let widths = widths_for(old(self).segment_widths@, trace_segment);
                match first_fail(ids, names, all_valid(names.len())) {
                    None => {
                        &&& r is Ok
                        &&& forall|k: Seq<char>| #[trigger] final(self).symbol(k) == after_inserts(ids, entries, k)
                        &&& final(self).segment_widths@ == widths.update(
                            trace_segment as int,
                            cols_before(trace@, trace@.len() as int) as u16,
                        )
                    },
                    Some(p) => {
                        &&& (r matches Err(SemanticError::DuplicateIdentifier(n)) && n@ == names[p])
                        &&& forall|k: Seq<char>| #[trigger] final(self).symbol(k) == after_inserts(
                            ids,
                            entries.subrange(0, p + 1),
                            k,
                        )
                        &&& final(self).segment_widths@ == widths
                    },
                }
            }),
    {
        let ghost ids = self.identifiers@;
        let ghost names = trace_names(trace@);
        let ghost entries = trace_entries(trace_segment, trace@);
        let ghost valid = all_valid(names.len());
        if trace_segment >= (self.segment_widths.len() as u8) {
            resize_widths(&mut self.segment_widths, trace_segment as usize + 1);
        }
        let ghost widths = self.segment_widths@;
        assert(widths == widths_for(old(self).segment_widths@, trace_segment));
        assert(trace_segment < widths.len()) by {
            let l0: usize = old(self).segment_widths.len();
            if !(trace_segment >= (l0 as u8)) {
                assert((l0 as u8) as usize <= l0) by (bit_vector);
            }
        }
        let mut col_idx: usize = 0;
        let mut i: usize = 0;
        while i < trace.len()
            invariant
                self.wf(),
                ids == old(self).identifiers@,
                names == trace_names(trace@),
                entries == trace_entries(trace_segment, trace@),
                valid == all_valid(names.len()),
                i <= trace@.len(),
                col_idx == cols_before(trace@, i as int),
                cols_before(trace@, trace@.len() as int) <= usize::MAX,
                first_fail(ids, names.subrange(0, i as int), valid) is None,
                forall|k: Seq<char>| #[trigger] self.symbol(k) == after_inserts(ids, entries.subrange(0, i as int), k),
                self.segment_widths@ == widths,
                widths == widths_for(old(self).segment_widths@, trace_segment),
                trace_segment < widths.len(),
                self.constants == old(self).constants,
                self.periodic_columns == old(self).periodic_columns,
                self.public_inputs == old(self).public_inputs,
            decreases trace@.len() - i,
        {
            let cols = &trace[i];
            let ghost pre = entries.subrange(0, i as int);
            proof {
                lemma_first_fail_step(ids, names, valid, i as int);
                lemma_after_inserts_declared(ids, pre, names.subrange(0, i as int), names[i as int]);
                lemma_cols_before_mono(trace@, i + 1, trace@.len() as int);
            }
            let size = cols.size as usize;
            let columns = TraceColumns { trace_segment, offset: col_idx, size };
            let ghost st = *self;
            let res = self.insert_symbol(cols.name.as_str(), IdentifierType::TraceColumns(columns));
            if res.is_err() {
                proof {
                    assert(st.symbol(names[i as int]) is Some);
                    lemma_first_fail_extend(ids, names, valid, i + 1);
                    assert forall|k: Seq<char>| #[trigger] self.symbol(k) == after_inserts(
                        ids,
                        entries.subrange(0, i + 1),
                        k,
                    ) by {
                        let full = entries.subrange(0, i + 1);
                        assert(full.drop_last() =~= pre);
                        assert(full.last() == (cols.name@, IdentifierType::TraceColumns(columns)));
                        assert(st.symbol(k) == after_inserts(ids, pre, k));
                    }
                }
                return Err(SemanticError::DuplicateIdentifier(cols.name.clone()));
            }
            proof {
                assert forall|k: Seq<char>| #[trigger] self.symbol(k) == after_inserts(
                    ids,
                    entries.subrange(0, i + 1),
                    k,
                ) by {
                    let full = entries.subrange(0, i + 1);
                    assert(full.drop_last() =~= pre);
                    assert(full.last() == (cols.name@, IdentifierType::TraceColumns(columns)));
                    assert(st.symbol(k) == after_inserts(ids, pre, k));
                }
            }
            col_idx = col_idx + size;
            i = i + 1;
        }
        proof {
            assert(names.subrange(0, i as int) =~= names);
            assert(entries.subrange(0, i as int) =~= entries);
        }
        let ghost before_set = *self;
        self.segment_widths.set(trace_segment as usize, col_idx as u16);
        proof {
            assert forall|k: Seq<char>| #[trigger] self.symbol(k) == after_inserts(ids, entries, k) by {
                assert(self.symbol(k) == before_set.symbol(k));
            }
        }
        Ok(())
    }
}

proof fn lemma_cols_before_mono(trace: Seq<TraceCols>, p: int, q: int)
    requires
        p <= q,
    ensures
        cols_before(trace, p) <= cols_before(trace, q),
    decreases q - p,
{
    if p < q {
        lemma_cols_before_mono(trace, p, q - 1);
    }
}

/// The names of the periodic columns.
pub open spec fn periodic_names(columns: Seq<PeriodicColumn>) -> Seq<Seq<char>> {
    Seq::new(columns.len(), |p: int| columns[p].name@)
}

/// Which periodic columns have a valid cycle.
pub open spec fn periodic_valid(columns: Seq<PeriodicColumn>) -> Seq<bool> {
    Seq::new(
        columns.len(),
        |p: int| is_pow2(columns[p].values@.len()) && columns[p].values@.len() >= MIN_CYCLE_LENGTH,
    )
}

/// The declarations of the periodic columns, after `base` columns declared before: each with
/// its index among all periodic columns and its cycle length.
pub open spec fn periodic_entries(columns: Seq<PeriodicColumn>, base: nat) -> Seq<(Seq<char>, IdentifierType)> {
    Seq::new(
        columns.len(),
        |p: int|
            (
                columns[p].name@,
                IdentifierType::PeriodicColumn((base + p) as usize, columns[p].values@.len() as usize),
            ),
    )
}

/// `list` is `before` followed by the values of the first `n` columns.
pub open spec fn values_recorded(
    list: Seq<Vec<u64>>,
    before: Seq<Vec<u64>>,
    columns: Seq<PeriodicColumn>,
    n: int,
) -> bool {
    &&& list.len() == before.len() + n
    &&& list.subrange(0, before.len() as int) == before
    &&& forall|q: int| 0 <= q < n ==> (#[trigger] list[before.len() + q])@ == columns[q].values@
}

impl SymbolTable {
    /// Declares the periodic columns, in order, each with its index among all periodic columns
    /// and its cycle length, and
    /// records their values. Stops at the first column whose cycle is invalid (before declaring
    /// it) or whose name is declared already.
    pub fn insert_periodic_columns(&mut self, columns: &Vec<PeriodicColumn>) -> (r: Result<
        (),
        SemanticError,
    >)
        requires
            old(self).wf(),
        ensures
            final(self).wf(),
            final(self).segment_widths == old(self).segment_widths,
            final(self).constants == old(self).constants,
            final(self).public_inputs == old(self).public_inputs,
            ({
                let ids = old(self).identifiers@;
                let names = periodic_names(columns@);
                let valid = periodic_valid(columns@);
                let entries = periodic_entries(columns@, old(self).periodic_columns@.len());
                match first_fail(ids, names, valid) {
                    None => {
                        &&& r is Ok
                        &&& forall|k: Seq<char>| #[trigger] final(self).symbol(k) == after_inserts(ids, entries, k)
                        &&& values_recorded(
                            final(self).periodic_columns@,
                            old(self).periodic_columns@,
                            columns@,
                            names.len() as int,
                        )
                    },
                    Some(p) => {
                        &&& if !valid[p] {
                            &&& (r matches Err(SemanticError::InvalidPeriodicColumn(n, c)) && n@ == names[p]
                                && c == columns@[p].values@.len())
                            &&& forall|k: Seq<char>| #[trigger] final(self).symbol(k) == after_inserts(
                                ids,
                                entries.subrange(0, p),
                                k,
                            )
                        } else {
                            &&& (r matches Err(SemanticError::DuplicateIdentifier(n)) && n@ == names[p])
                            &&& forall|k: Seq<char>| #[trigger] final(self).symbol(k) == after_inserts(
                                ids,
                                entries.subrange(0, p + 1),
                                k,
                            )
                        }
                        &&& values_recorded(
                            final(self).periodic_columns@,
                            old(self).periodic_columns@,
                            columns@,
                            p,
                        )
                    },
                }
            }),
    {
        let ghost ids = self.identifiers@;
        let ghost names = periodic_names(columns@);
        let ghost entries = periodic_entries(columns@, self.periodic_columns@.len());
        let ghost valid = periodic_valid(columns@);
        let ghost before = self.periodic_columns@;
        proof {
            assert(self.periodic_columns@.subrange(0, before.len() as int) =~= before);
        }
        let mut i: usize = 0;
        while i < columns.len()
            invariant
                self.wf(),
                ids == old(self).identifiers@,
                names == periodic_names(columns@),
                entries == periodic_entries(columns@, before.len()),
                valid == periodic_valid(columns@),
                before == old(self).periodic_columns@,
                i <= columns@.len(),
                first_fail(ids, names.subrange(0, i as int), valid) is None,
                forall|k: Seq<char>| #[trigger] self.symbol(k) == after_inserts(ids, entries.subrange(0, i as int), k),
                values_recorded(self.periodic_columns@, before, columns@, i as int),
                self.segment_widths == old(self).segment_widths,
                self.constants == old(self).constants,
                self.public_inputs == old(self).public_inputs,
            decreases columns@.len() - i,
        {
            let column = &columns[i];
            let ghost pre = entries.subrange(0, i as int);
            proof {
                lemma_first_fail_step(ids, names, valid, i as int);
                lemma_after_inserts_declared(ids, pre, names.subrange(0, i as int), names[i as int]);
            }
            let checked = validate_cycles(column);
            if checked.is_err() {
                proof {
                    lemma_first_fail_extend(ids, names, valid, i + 1);
                }
                return Err(SemanticError::InvalidPeriodicColumn(column.name.clone(), column.values.len()));
            }
            let values = copy_values(&column.values);
            let ghost st = *self;
            let index = self.periodic_columns.len();
            let res = self.insert_symbol(
                column.name.as_str(),
                IdentifierType::PeriodicColumn(index, values.len()),
            );
            proof {
                assert forall|k: Seq<char>| #[trigger] self.symbol(k) == after_inserts(
                    ids,
                    entries.subrange(0, i + 1),
                    k,
                ) by {
                    let full = entries.subrange(0, i + 1);
                    assert(full.drop_last() =~= pre);
                    assert(full.last() == (
                        column.name@,
                        IdentifierType::PeriodicColumn(index, values@.len() as usize),
                    ));
                    assert(st.symbol(k) == after_inserts(ids, pre, k));
                }
            }
            if res.is_err() {
                proof {
                    assert(st.symbol(names[i as int]) is Some);
                    lemma_first_fail_extend(ids, names, valid, i + 1);
                }
                return Err(SemanticError::DuplicateIdentifier(column.name.clone()));
            }
            let ghost list = self.periodic_columns@;
            let ghost mid = *self;
            self.periodic_columns.push(values);
            proof {
                assert(self.periodic_columns@.subrange(0, before.len() as int) =~= list.subrange(
                    0,
                    before.len() as int,
                ));
                assert forall|q: int| 0 <= q < i + 1 implies (#[trigger] self.periodic_columns@[before.len()
                    + q])@ == columns@[q].values@ by {
                    if q < i {
                        assert(self.periodic_columns@[before.len() + q] == list[before.len() + q]);
                    }
                }
                assert forall|k: Seq<char>| #[trigger] self.symbol(k) == after_inserts(
                    ids,
                    entries.subrange(0, i + 1),
                    k,
                ) by {
                    assert(self.symbol(k) == mid.symbol(k));
                }
            }
            i = i + 1;
        }
        proof {
            assert(names.subrange(0, i as int) =~= names);
            assert(entries.subrange(0, i as int) =~= entries);
        }
        Ok(())
    }
}

/// Two integrity variables are the same: same name, same shape.
pub open spec fn same_variable(a: Variable, b: Variable) -> bool {
    &&& a.name@ == b.name@
    &&& match (a.value, b.value) {
        (VariableType::Scalar, VariableType::Scalar) => true,
        (VariableType::Vector(x), VariableType::Vector(y)) => x == y,
        (VariableType::Matrix(x), VariableType::Matrix(y)) => x@ == y@,
        (VariableType::ListComprehension, VariableType::ListComprehension) => true,
        _ => false,
    }
}

impl Variable {
    /// A copy of the variable.
    pub fn copy(&self) -> (r: Variable)
        ensures
            same_variable(r, *self),
    {
        let value = match &self.value {
            VariableType::Scalar => VariableType::Scalar,
            VariableType::Vector(n) => VariableType::Vector(*n),
            VariableType::Matrix(rows) => VariableType::Matrix(crate::mir::graph::copy_ids(rows)),
            VariableType::ListComprehension => VariableType::ListComprehension,
        };
        Variable { name: self.name.clone(), value }
    }
}

impl Constant {
    /// A copy of the constant.
    pub fn copy(&self) -> (r: Constant)
        ensures
            r.name@ == self.name@,
            same_constant(r.value, self.value),
    {
        Constant { name: self.name.clone(), value: self.value.copy() }
    }
}

impl SymbolTable {
    /// Declares a constant and records it, once its value is checked.
    pub fn insert_constant(&mut self, constant: &Constant) -> (r: Result<(), SemanticError>)
        requires
            old(self).wf(),
            constant.value matches ConstantType::Matrix(m) ==> m@.len() > 0,
        ensures
            final(self).wf(),
            final(self).segment_widths == old(self).segment_widths,
            final(self).periodic_columns == old(self).periodic_columns,
            final(self).public_inputs == old(self).public_inputs,
            !rows_consistent(constant.value) ==> {
                &&& (r matches Err(SemanticError::InvalidConstant(n)) && n@ == constant.name@)
                &&& final(self).identifiers == old(self).identifiers
                &&& final(self).constants == old(self).constants
            },
            rows_consistent(constant.value) ==> {
                &&& (r is Ok <==> old(self).symbol(constant.name@) is None)
                &&& r is Err ==> (r matches Err(SemanticError::DuplicateIdentifier(n)) && n@
                    == constant.name@)
                &&& forall|k: Seq<char>|
                    k != constant.name@ ==> #[trigger] final(self).symbol(k) == old(self).symbol(k)
                &&& (final(self).symbol(constant.name@) matches Some(IdentifierType::Constant(c))
                    && same_constant(c, constant.value))
                &&& r is Ok ==> {
                    &&& final(self).constants@.len() == old(self).constants@.len() + 1
                    &&& final(self).constants@.drop_last() == old(self).constants@
                    &&& final(self).constants@.last().name@ == constant.name@
                    &&& same_constant(final(self).constants@.last().value, constant.value)
                }
                &&& r is Err ==> final(self).constants == old(self).constants
            },
    {
        validate_constant(constant)?;
        let value = constant.value.copy();
        let res = self.insert_symbol(constant.name.as_str(), IdentifierType::Constant(value));
        if res.is_err() {
            return res;
        }
        let ghost mid = *self;
        self.constants.push(constant.copy());
        proof {
            assert forall|k: Seq<char>| k != constant.name@ implies #[trigger] self.symbol(k) == old(
                self,
            ).symbol(k) by {
                assert(self.symbol(k) == mid.symbol(k));
            }
            assert(self.symbol(constant.name@) == mid.symbol(constant.name@));
            assert(self.constants@.drop_last() =~= old(self).constants@);
        }
        Ok(())
    }

    /// Declares an integrity variable.
    pub fn insert_integrity_variable(&mut self, variable: &Variable) -> (r: Result<(), SemanticError>)
        requires
            old(self).wf(),
        ensures
            final(self).wf(),
            r is Ok <==> old(self).symbol(variable.name@) is None,
            r is Err ==> (r matches Err(SemanticError::DuplicateIdentifier(n)) && n@ == variable.name@),
            forall|k: Seq<char>|
                k != variable.name@ ==> #[trigger] final(self).symbol(k) == old(self).symbol(k),
            final(self).symbol(variable.name@) matches Some(IdentifierType::IntegrityVariable(v))
                && same_variable(v, *variable),
            final(self).segment_widths == old(self).segment_widths,
            final(self).constants == old(self).constants,
            final(self).periodic_columns == old(self).periodic_columns,
            final(self).public_inputs == old(self).public_inputs,
    {
        let v = variable.copy();
        self.insert_symbol(variable.name.as_str(), IdentifierType::IntegrityVariable(v))
    }

    /// The declarations the table holds: the segment widths, the constants, the public inputs
    /// and the values of the periodic columns.
    pub fn into_declarations(self) -> (r: (Vec<u16>, Vec<Constant>, Vec<(String, usize)>, Vec<Vec<u64>>))
        ensures
            r.0 == self.segment_widths,
            r.1 == self.constants,
            r.2 == self.public_inputs,
            r.3 == self.periodic_columns,
    {
        (self.segment_widths, self.constants, self.public_inputs, self.periodic_columns)
    }

    /// The number of trace segments specified for the AIR: one per recorded width.
    pub fn num_trace_segments(&self) -> (r: usize)
        ensures
            r == self.segment_widths@.len(),
    {
        self.segment_widths.len()
    }

    /// The widths of the trace segments.
    pub fn segment_widths(&self) -> (r: &Vec<u16>)
        ensures
            r == &self.segment_widths,
    {
        &self.segment_widths
    }

    /// What `name` names; an error when it is not declared.
    pub fn get_type(&self, name: &str) -> (r: Result<&IdentifierType, SemanticError>)
        requires
            self.wf(),
        ensures
            match self.symbol(name@) {
                Some(t) => r matches Ok(x) && *x == t,
                None => r matches Err(SemanticError::InvalidIdentifier(n)) && n@ == name@,
            },
    {
        let key = name.to_owned();
        let mut i: usize = 0;
        while i < self.identifiers.len() && !(self.identifiers[i].0 == key)
            invariant
                key@ == name@,
                i <= self.identifiers@.len(),
                forall|j: int| 0 <= j < i ==> self.identifiers@[j].0@ != name@,
            decreases self.identifiers@.len() - i,
        {
            i = i + 1;
        }
        if i < self.identifiers.len() {
            proof {
                lemma_lookup_at(self.identifiers@, i as int);
            }
            Ok(&self.identifiers[i].1)
        } else {
            proof {
                lemma_lookup_absent(self.identifiers@, name@);
            }
            Err(SemanticError::InvalidIdentifier(key))
        }
    }
}

/// Why an access to an element fails, apart from the identifier concerned.
#[derive(Debug)]
pub enum AccessFailure {
    PublicInputsOutOfBounds(usize, usize),
    VectorAccessOutOfBounds(usize, usize),
    InvalidVectorAccess,
    MatrixAccessOutOfBounds(usize, usize, usize, usize),
    InvalidMatrixAccess,
}

/// `e` reports failure `f` about the identifier `name`.
pub open spec fn reports(e: SemanticError, name: Seq<char>, f: AccessFailure) -> bool {
    match (e, f) {
        (SemanticError::PublicInputsOutOfBounds(n, i, s), AccessFailure::PublicInputsOutOfBounds(j, t)) => n@
            == name && i == j && s == t,
        (SemanticError::VectorAccessOutOfBounds(n, i, s), AccessFailure::VectorAccessOutOfBounds(j, t)) => n@
            == name && i == j && s == t,
        (SemanticError::InvalidVectorAccess(n), AccessFailure::InvalidVectorAccess) => n@ == name,
        (
            SemanticError::MatrixAccessOutOfBounds(n, a1, a2, a3, a4),
            AccessFailure::MatrixAccessOutOfBounds(b1, b2, b3, b4),
        ) => n@ == name && a1 == b1 && a2 == b2 && a3 == b3 && a4 == b4,
        (SemanticError::InvalidMatrixAccess(n), AccessFailure::InvalidMatrixAccess) => n@ == name,
        _ => false,
    }
}

/// How an access to element `idx` of what `t` names fails, if it does: public inputs, vector
/// constants, vector variables and trace columns can be indexed within their length; nothing
/// else can.
pub open spec fn vector_access_failure(t: IdentifierType, idx: usize) -> Option<AccessFailure> {
    match t {
        IdentifierType::PublicInput(size) => if idx < size {
            None
        } else {
            Some(AccessFailure::PublicInputsOutOfBounds(idx, size))
        },
        IdentifierType::Constant(ConstantType::Vector(v)) => if idx < v@.len() {
            None
        } else {
            Some(AccessFailure::VectorAccessOutOfBounds(idx, v@.len() as usize))
        },
        IdentifierType::IntegrityVariable(var) => match var.value {
            VariableType::Vector(len) => if idx < len {
                None
            } else {
                Some(AccessFailure::VectorAccessOutOfBounds(idx, len))
            },
            _ => Some(AccessFailure::InvalidVectorAccess),
        },
        IdentifierType::TraceColumns(tc) => if idx < tc.size {
            None
        } else {
            Some(AccessFailure::VectorAccessOutOfBounds(idx, tc.size))
        },
        _ => Some(AccessFailure::InvalidVectorAccess),
    }
}

/// How an access to element (`row`, `col`) of what `t` names fails, if it does: matrix
/// constants and matrix variables can be indexed within their number of rows and the length of
/// their first row; nothing else can.
pub open spec fn matrix_access_failure(t: IdentifierType, row: usize, col: usize) -> Option<AccessFailure> {
    match t {
        IdentifierType::Constant(ConstantType::Matrix(m)) => {
            let rows = m@.len() as usize;
            let cols = m@[0]@.len() as usize;
            if row < rows && col < cols {
                None
            } else {
                Some(AccessFailure::MatrixAccessOutOfBounds(row, col, rows, cols))
            }
        },
        IdentifierType::IntegrityVariable(var) => match var.value {
            VariableType::Matrix(m) => {
                let rows = m@.len() as usize;
                let cols = m@[0];
                if row < rows && col < cols {
                    None
                } else {
                    Some(AccessFailure::MatrixAccessOutOfBounds(row, col, rows, cols))
                }
            },
            _ => Some(AccessFailure::InvalidMatrixAccess),
        },
        _ => Some(AccessFailure::InvalidMatrixAccess),
    }
}

/// A matrix that `t` names has a first row.
pub open spec fn matrix_rows_ok(t: IdentifierType) -> bool {
    match t {
        IdentifierType::Constant(ConstantType::Matrix(m)) => m@.len() > 0,
        IdentifierType::IntegrityVariable(var) => var.value matches VariableType::Matrix(m) ==> m@.len()
            > 0,
        _ => true,
    }
}

impl SymbolTable {
    /// Checks an access to one element of a vector: the name must be declared, name a public
    /// input, a vector constant, a vector variable or trace columns, and the index be within
    /// it. Gives what the name names.
    pub fn access_vector_element(&self, vector_access: &VectorAccess) -> (r: Result<
        &IdentifierType,
        SemanticError,
    >)
        requires
            self.wf(),
        ensures
            match self.symbol(vector_access.name@) {
                None => r matches Err(SemanticError::InvalidIdentifier(n)) && n@ == vector_access.name@,
                Some(t) => match vector_access_failure(t, vector_access.idx) {
                    None => r matches Ok(x) && *x == t,
                    Some(f) => r matches Err(e) && reports(e, vector_access.name@, f),
                },
            },
    {
        let symbol_type = self.get_type(vector_access.name.as_str())?;
        match symbol_type {
            IdentifierType::PublicInput(size) => {
                if vector_access.idx < *size {
                    Ok(symbol_type)
                } else {
                    Err(
                        SemanticError::PublicInputsOutOfBounds(
                            vector_access.name.clone(),
                            vector_access.idx,
                            *size,
                        ),
                    )
                }
            },
            IdentifierType::Constant(ConstantType::Vector(vector)) => {
                validate_vector_access(vector_access, vector.len())?;
                Ok(symbol_type)
            },
            IdentifierType::IntegrityVariable(integrity_variable) => {
                if let VariableType::Vector(len) = &integrity_variable.value {
                    validate_vector_access(vector_access, *len)?;
                    Ok(symbol_type)
                } else {
                    Err(SemanticError::InvalidVectorAccess(vector_access.name.clone()))
                }
            },
            IdentifierType::TraceColumns(trace_columns) => {
                if vector_access.idx < trace_columns.size {
                    Ok(symbol_type)
                } else {
                    Err(
                        SemanticError::VectorAccessOutOfBounds(
                            vector_access.name.clone(),
                            vector_access.idx,
                            trace_columns.size,
                        ),
                    )
                }
            },
            _ => Err(SemanticError::InvalidVectorAccess(vector_access.name.clone())),
        }
    }

    /// Checks an access to one element of a matrix: the name must be declared, name a matrix
    /// constant or a matrix variable, and both indices be within it. Gives what the name names.
    pub fn access_matrix_element(&self, matrix_access: &MatrixAccess) -> (r: Result<
        &IdentifierType,
        SemanticError,
    >)
        requires
            self.wf(),
            self.symbol(matrix_access.name@) matches Some(t) ==> matrix_rows_ok(t),
        ensures
            match self.symbol(matrix_access.name@) {
                None => r matches Err(SemanticError::InvalidIdentifier(n)) && n@ == matrix_access.name@,
                Some(t) => match matrix_access_failure(t, matrix_access.row_idx, matrix_access.col_idx) {
                    None => r matches Ok(x) && *x == t,
                    Some(f) => r matches Err(e) && reports(e, matrix_access.name@, f),
                },
            },
    {
        let symbol_type = self.get_type(matrix_access.name.as_str())?;
        match symbol_type {
            IdentifierType::Constant(ConstantType::Matrix(matrix)) => {
                validate_matrix_access(matrix_access, matrix.len(), matrix[0].len())?;
                Ok(symbol_type)
            },
            IdentifierType::IntegrityVariable(transition_variable) => {
                if let VariableType::Matrix(matrix) = &transition_variable.value {
                    validate_matrix_access(matrix_access, matrix.len(), matrix[0])?;
                    Ok(symbol_type)
                } else {
                    Err(SemanticError::InvalidMatrixAccess(matrix_access.name.clone()))
                }
            },
            _ => Err(SemanticError::InvalidMatrixAccess(matrix_access.name.clone())),
        }
    }
}


/// An element access to a matrix constant whose rows all have the same length succeeds exactly
/// when the element exists: the row index is below the number of rows and the column index is
/// below the length of that row.
pub proof fn lemma_matrix_access_ok_iff_element_exists(
    m: Vec<Vec<u64>>,
    row: usize,
    col: usize,
)
    requires
        m@.len() > 0,
        m@.len() <= usize::MAX,
        m@[0]@.len() <= usize::MAX,
        rows_consistent(ConstantType::Matrix(m)),
    ensures
        matrix_access_failure(IdentifierType::Constant(ConstantType::Matrix(m)), row, col) is None
            <==> (row < m@.len() && col < m@[row as int]@.len()),
{
    if row < m@.len() && row > 0 {
        assert(m@[row as int]@.len() == m@[0]@.len());
    }
}

/// An element access to a matrix variable whose rows all have the same length succeeds exactly
/// when the element exists: the row index is below the number of rows and the column index is
/// below the length of that row.
pub proof fn lemma_variable_matrix_access_ok_iff_element_exists(
    var: Variable,
    m: Vec<usize>,
    row: usize,
    col: usize,
)
    requires
        var.value == VariableType::Matrix(m),
        m@.len() > 0,
        m@.len() <= usize::MAX,
        forall|i: int| 0 <= i < m@.len() ==> #[trigger] m@[i] == m@[0],
    ensures
        matrix_access_failure(IdentifierType::IntegrityVariable(var), row, col) is None <==> (row
            < m@.len() && col < m@[row as int]),
{
}

/// An element access succeeds exactly when the element exists: within the size of a public
/// input, the length of a vector constant or of a vector variable, or the number of trace
/// columns of a group. Nothing else can be accessed by one index.
pub proof fn lemma_vector_access_ok_iff_element_exists(t: IdentifierType, idx: usize)
    ensures
        vector_access_failure(t, idx) is None <==> match t {
            IdentifierType::PublicInput(size) => idx < size,
            IdentifierType::Constant(ConstantType::Vector(v)) => idx < v@.len(),
            IdentifierType::IntegrityVariable(var) => var.value matches VariableType::Vector(len)
                && idx < len,
            IdentifierType::TraceColumns(tc) => idx < tc.size,
            _ => false,
        },
{
}

} // verus!
