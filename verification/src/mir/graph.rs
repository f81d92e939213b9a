//! The constraint graph: operations stored in an arena, each referring to its operands by
//! index. An operation only refers to operations stored before it, so the graph is acyclic
//! and every node denotes a finite expression tree.
use vstd::prelude::*;
use crate::ast::AccessType;

verus! {

/// The index of an operation in the graph.
pub type NodeId = usize;

/// An access to a trace column.
#[derive(Debug, Clone, Copy, PartialEq, Eq, Structural)]
pub struct TraceAccess {
    pub segment: usize,
    pub column: usize,
    pub row_offset: usize,
}

/// A group of consecutive trace columns bound to one name: the segment, the first column and
/// the number of columns.
#[derive(Debug, Clone, Copy, PartialEq, Eq, Structural)]
pub struct TraceAccessBinding {
    pub segment: usize,
    pub offset: usize,
    pub size: usize,
}

/// A group of consecutive random values bound to one name: the first index and the number
/// of values.
#[derive(Debug, Clone, Copy, PartialEq, Eq, Structural)]
pub struct RandomValueBinding {
    pub offset: usize,
    pub size: usize,
}

/// The type of a parameter.
#[derive(Debug, Clone, Copy, PartialEq, Eq, Structural)]
pub enum MirType {
    Felt,
    Vector(usize),
    Matrix(usize, usize),
}

/// The leaf values of the graph.
#[derive(Debug, Clone, PartialEq, Eq)]
pub enum MirValue {
    /// A field element constant
    Constant(u64),
    /// A constant vector of field elements
    ConstantVector(Vec<u64>),
    /// A constant matrix of field elements, by rows
    ConstantMatrix(Vec<Vec<u64>>),
    /// A trace column, at some row offset
    TraceAccess(TraceAccess),
    /// Trace columns bound to a name, not yet split into single columns
    TraceAccessBinding(TraceAccessBinding),
    /// A periodic column, by index
    PeriodicColumn(usize),
    /// An element of a public input: input index, element index
    PublicInput(usize, usize),
    /// A random value (alpha) supplied by the verifier, by index
    RandomValue(usize),
    /// Random values bound to one name, not yet split into single values
    RandomValueBinding(RandomValueBinding),
    /// The running column of a bus, at some row offset
    BusAccess(usize, usize),
    /// The empty value, used for buses that start or end empty
    Null,
    /// A value that is not constrained
    Unconstrained,
}

/// Which row a boundary constraint applies to.
#[derive(Debug, Clone, Copy, PartialEq, Eq, Structural)]
pub enum BoundaryKind {
    First,
    Last,
}

/// The operator of a fold over a vector.
#[derive(Debug, Clone, Copy, PartialEq, Eq, Structural)]
pub enum FoldOperator {
    Add,
    Mul,
    Undefined,
}

/// Whether a bus operation inserts into or removes from the bus.
#[derive(Debug, Clone, Copy, PartialEq, Eq, Structural)]
pub enum BusOpKind {
    Add,
    Rem,
}

/// `Unit` buses are multiset checks (products); `Mult` buses are LogUp (sums of inverses).
#[derive(Debug, Clone, Copy, PartialEq, Eq, Structural)]
pub enum BusType {
    Unit,
    Mult,
}

/// An operation of the graph.
#[derive(Debug)]
pub enum Op {
    Value(MirValue),
    /// The parameter at a position of the enclosing function or loop, with its type
    Parameter(usize, MirType),
    Add(NodeId, NodeId),
    Sub(NodeId, NodeId),
    Mul(NodeId, NodeId),
    /// Exponentiation; the exponent is a constant after all passes
    Exp(NodeId, NodeId),
    /// Enforces that its operand is zero
    Enf(NodeId),
    Boundary(BoundaryKind, NodeId),
    /// condition, then, else
    If(NodeId, NodeId, NodeId),
    /// iterator, operator, initial value
    Fold(NodeId, FoldOperator, NodeId),
    Vector(Vec<NodeId>),
    /// The rows, each a vector
    Matrix(Vec<NodeId>),
    /// indexable, access, row offset
    Accessor(NodeId, AccessType, usize),
    /// iterators, body, selector
    For(Vec<NodeId>, NodeId, Option<NodeId>),
    /// function index, arguments
    Call(usize, Vec<NodeId>),
    /// bus index, kind, arguments, latch
    BusOp(usize, BusOpKind, Vec<NodeId>, NodeId),
    /// No operation
    Nothing,
}

/// Every index in `s` is below `bound`.
pub open spec fn all_below(s: Seq<NodeId>, bound: nat) -> bool {
    forall|k: int| 0 <= k < s.len() ==> (#[trigger] s[k]) < bound
}

/// Every operand of `op` is below `bound`.
pub open spec fn operands_below(op: Op, bound: nat) -> bool {
    match op {
        Op::Add(l, r) | Op::Sub(l, r) | Op::Mul(l, r) | Op::Exp(l, r) => l < bound && r < bound,
        Op::Enf(e) => e < bound,
        Op::Boundary(_, e) => e < bound,
        Op::If(c, t, e) => c < bound && t < bound && e < bound,
        Op::Fold(i, _, a) => i < bound && a < bound,
        Op::Vector(v) => all_below(v@, bound),
        Op::Matrix(v) => all_below(v@, bound),
        Op::Accessor(i, _, _) => i < bound,
        Op::For(its, body, sel) => all_below(its@, bound) && body < bound && (sel matches Some(s)
            ==> s < bound),
        Op::Call(_, args) => all_below(args@, bound),
        Op::BusOp(_, _, args, latch) => all_below(args@, bound) && latch < bound,
        _ => true,
    }
}

/// Each operation only refers to operations stored before it.
pub open spec fn nodes_wf(nodes: Seq<Op>) -> bool {
    forall|i: int| 0 <= i < nodes.len() ==> operands_below(#[trigger] nodes[i], i as nat)
}

/// A bus: its operations (columns) with their latches, and what it holds in the first and
/// last rows (`None` while not constrained).
pub struct Bus {
    pub bus_type: BusType,
    pub columns: Vec<NodeId>,
    pub latches: Vec<NodeId>,
    pub first: Option<NodeId>,
    pub last: Option<NodeId>,
}

/// Why compiling failed.
#[derive(Debug, Clone, Copy, PartialEq, Eq, Structural)]
pub enum CompileError {
    Failed,
}

impl Bus {
    /// An empty bus of the given type.
    pub fn create(bus_type: BusType) -> (b: Bus)
        ensures
            b.bus_type == bus_type,
            b.columns@.len() == 0,
            b.latches@.len() == 0,
            b.first is None,
            b.last is None,
    {
        Bus { bus_type, columns: Vec::new(), latches: Vec::new(), first: None, last: None }
    }

    /// Records what the bus holds in the first row; it can only be set once.
    pub fn set_first(&mut self, first: NodeId) -> (r: Result<(), CompileError>)
        ensures
            old(self).first is None ==> r is Ok && final(self).first == Some(first),
            old(self).first is Some ==> r == Err::<(), CompileError>(CompileError::Failed)
                && final(self).first == old(self).first,
            final(self).bus_type == old(self).bus_type,
            final(self).columns@ == old(self).columns@,
            final(self).latches@ == old(self).latches@,
            final(self).last == old(self).last,
    {
        if self.first.is_some() {
            return Err(CompileError::Failed);
        }
        self.first = Some(first);
        Ok(())
    }

    /// Records what the bus holds in the last row; it can only be set once.
    pub fn set_last(&mut self, last: NodeId) -> (r: Result<(), CompileError>)
        ensures
            old(self).last is None ==> r is Ok && final(self).last == Some(last),
            old(self).last is Some ==> r == Err::<(), CompileError>(CompileError::Failed)
                && final(self).last == old(self).last,
            final(self).bus_type == old(self).bus_type,
            final(self).columns@ == old(self).columns@,
            final(self).latches@ == old(self).latches@,
            final(self).first == old(self).first,
    {
        if self.last.is_some() {
            return Err(CompileError::Failed);
        }
        self.last = Some(last);
        Ok(())
    }

    pub fn get_first(&self) -> (r: Option<NodeId>)
        ensures
            r == self.first,
    {
        self.first
    }

    pub fn get_last(&self) -> (r: Option<NodeId>)
        ensures
            r == self.last,
    {
        self.last
    }
}

/// The constraint graph.
pub struct Graph {
    pub nodes: Vec<Op>,
    pub boundary_roots: Vec<NodeId>,
    pub integrity_roots: Vec<NodeId>,
    pub buses: Vec<Bus>,
}

impl Graph {
    pub open spec fn view(&self) -> Seq<Op> {
        self.nodes@
    }

    /// The nodes are acyclic and every root and bus refers to a stored node.
    pub open spec fn wf(&self) -> bool {
        &&& nodes_wf(self.nodes@)
        &&& all_below(self.boundary_roots@, self.nodes@.len())
        &&& all_below(self.integrity_roots@, self.nodes@.len())
        &&& forall|b: int| 0 <= b < self.buses@.len() ==> #[trigger] self.bus_wf(b)
    }

    pub open spec fn bus_wf(&self, b: int) -> bool {
        let bus = self.buses@[b];
        &&& bus.columns@.len() == bus.latches@.len()
        &&& all_below(bus.columns@, self.nodes@.len())
        &&& all_below(bus.latches@, self.nodes@.len())
        &&& (bus.first matches Some(f) ==> f < self.nodes@.len())
        &&& (bus.last matches Some(l) ==> l < self.nodes@.len())
    }

    /// Everything stored in `old` is still there, unchanged, in `self`.
    pub open spec fn extends(&self, old: &Graph) -> bool {
        &&& old.nodes@.len() <= self.nodes@.len()
        &&& self.nodes@.subrange(0, old.nodes@.len() as int) == old.nodes@
        &&& self.boundary_roots@ == old.boundary_roots@
        &&& self.integrity_roots@ == old.integrity_roots@
        &&& self.buses@ == old.buses@
    }

    /// An empty graph.
    pub fn new() -> (g: Graph)
        ensures
            g.wf(),
            g@.len() == 0,
            g.boundary_roots@.len() == 0,
            g.integrity_roots@.len() == 0,
            g.buses@.len() == 0,
    {
        Graph {
            nodes: Vec::new(),
            boundary_roots: Vec::new(),
            integrity_roots: Vec::new(),
            buses: Vec::new(),
        }
    }

    pub fn len(&self) -> (r: usize)
        ensures
            r == self@.len(),
    {
        self.nodes.len()
    }

    /// Stores an operation whose operands are already stored, and returns its index.
    pub fn insert(&mut self, op: Op) -> (id: NodeId)
        requires
            old(self).wf(),
            operands_below(op, old(self)@.len()),
        ensures
            final(self).wf(),
            final(self).extends(old(self)),
            id == old(self)@.len(),
            final(self)@ == old(self)@.push(op),
    {
        let id = self.nodes.len();
        self.nodes.push(op);
        proof {
            assert forall|i: int| 0 <= i < self.nodes@.len() implies operands_below(
                #[trigger] self.nodes@[i],
                i as nat,
            ) by {
                if i < id {
                    assert(self.nodes@[i] == old(self).nodes@[i]);
                }
            }
            assert(self.nodes@.subrange(0, old(self).nodes@.len() as int) =~= old(self).nodes@);
            assert forall|b: int| 0 <= b < self.buses@.len() implies #[trigger] self.bus_wf(b) by {
                assert(old(self).bus_wf(b));
            }
        }
        id
    }

    /// Stores a value leaf.
    pub fn insert_value(&mut self, value: MirValue) -> (id: NodeId)
        requires
            old(self).wf(),
        ensures
            final(self).wf(),
            final(self).extends(old(self)),
            id == old(self)@.len(),
            final(self)@ == old(self)@.push(Op::Value(value)),
    {
        self.insert(Op::Value(value))
    }

    /// Replaces the leaf value stored at `id`; every operation that refers to `id` now refers
    /// to the new value.
    pub fn set_value(&mut self, id: NodeId, value: MirValue)
        requires
            old(self).wf(),
            id < old(self)@.len(),
            old(self)@[id as int] is Value,
        ensures
            final(self).wf(),
            final(self)@ == old(self)@.update(id as int, Op::Value(value)),
            final(self).boundary_roots@ == old(self).boundary_roots@,
            final(self).integrity_roots@ == old(self).integrity_roots@,
            final(self).buses@ == old(self).buses@,
    {
        self.nodes.set(id, Op::Value(value));
        proof {
            assert forall|i: int| 0 <= i < self.nodes@.len() implies operands_below(
                #[trigger] self.nodes@[i],
                i as nat,
            ) by {
                if i != id {
                    assert(self.nodes@[i] == old(self).nodes@[i]);
                }
            }
            assert forall|b: int| 0 <= b < self.buses@.len() implies #[trigger] self.bus_wf(b) by {
                assert(old(self).bus_wf(b));
            }
        }
    }

    /// Replaces the operation stored at `id` by one whose operands are stored before `id`;
    /// every operation that refers to `id` now refers to the new one.
    pub fn replace(&mut self, id: NodeId, op: Op)
        requires
            old(self).wf(),
            id < old(self)@.len(),
            operands_below(op, id as nat),
        ensures
            final(self).wf(),
            final(self)@ == old(self)@.update(id as int, op),
            final(self).boundary_roots@ == old(self).boundary_roots@,
            final(self).integrity_roots@ == old(self).integrity_roots@,
            final(self).buses@ == old(self).buses@,
    {
        let ghost new_op = op;
        self.nodes.set(id, op);
        proof {
            assert forall|i: int| 0 <= i < self.nodes@.len() implies operands_below(
                #[trigger] self.nodes@[i],
                i as nat,
            ) by {
                if i != id {
                    assert(self.nodes@[i] == old(self).nodes@[i]);
                } else {
                    assert(self.nodes@[i] == new_op);
                }
            }
            assert forall|b: int| 0 <= b < self.buses@.len() implies #[trigger] self.bus_wf(b) by {
                assert(old(self).bus_wf(b));
            }
        }
    }

    /// Adds a root of the integrity constraints.
    pub fn insert_integrity_constraints_root(&mut self, root: NodeId)
        requires
            old(self).wf(),
            root < old(self)@.len(),
        ensures
            final(self).wf(),
            final(self)@ == old(self)@,
            final(self).integrity_roots@ == old(self).integrity_roots@.push(root),
            final(self).boundary_roots@ == old(self).boundary_roots@,
            final(self).buses@ == old(self).buses@,
    {
        self.integrity_roots.push(root);
        proof {
            assert forall|b: int| 0 <= b < self.buses@.len() implies #[trigger] self.bus_wf(b) by {
                assert(old(self).bus_wf(b));
            }
        }
    }

    /// Removes every occurrence of `root` from the roots of the integrity constraints, keeping
    /// the others in order.
    pub fn remove_integrity_constraints_root(&mut self, root: NodeId)
        requires
            old(self).wf(),
        ensures
            final(self).wf(),
            final(self)@ == old(self)@,
            final(self).integrity_roots@ == old(self).integrity_roots@.filter(|n: NodeId| n != root),
            final(self).boundary_roots@ == old(self).boundary_roots@,
            final(self).buses@ == old(self).buses@,
    {
        let roots = copy_ids(&self.integrity_roots);
        let ghost rs = roots@;
        let mut kept: Vec<NodeId> = Vec::new();
        let mut k: usize = 0;
        while k < roots.len()
            invariant
                rs == roots@,
                rs == old(self).integrity_roots@,
                all_below(rs, old(self)@.len()),
                k <= rs.len(),
                kept@ == rs.subrange(0, k as int).filter(|n: NodeId| n != root),
                all_below(kept@, old(self)@.len()),
            decreases rs.len() - k,
        {
            let c = roots[k];
            proof {
                let pre = rs.subrange(0, k as int);
                assert(rs.subrange(0, k + 1) =~= pre.push(c));
                pre.lemma_filter_push(c, |x: NodeId| x != root);
            }
            if c != root {
                kept.push(c);
            }
            k = k + 1;
        }
        proof {
            assert(rs.subrange(0, k as int) =~= rs);
        }
        self.integrity_roots = kept;
        proof {
            assert forall|b: int| 0 <= b < self.buses@.len() implies #[trigger] self.bus_wf(b) by {
                assert(old(self).bus_wf(b));
            }
        }
    }

    /// Adds a root of the boundary constraints.
    pub fn insert_boundary_constraints_root(&mut self, root: NodeId)
        requires
            old(self).wf(),
            root < old(self)@.len(),
        ensures
            final(self).wf(),
            final(self)@ == old(self)@,
            final(self).boundary_roots@ == old(self).boundary_roots@.push(root),
            final(self).integrity_roots@ == old(self).integrity_roots@,
            final(self).buses@ == old(self).buses@,
    {
        self.boundary_roots.push(root);
        proof {
            assert forall|b: int| 0 <= b < self.buses@.len() implies #[trigger] self.bus_wf(b) by {
                assert(old(self).bus_wf(b));
            }
        }
    }
}

/// A compiled AIR: its name, its constraint graph, and how many random values its
/// constraints use.
pub struct Mir {
    pub name: String,
    pub constraint_graph: Graph,
    pub num_random_values: u16,
}

impl Mir {
    pub fn new(name: String) -> (m: Mir)
        ensures
            m.name@ == name@,
            m.constraint_graph.wf(),
            m.constraint_graph@.len() == 0,
            m.constraint_graph.boundary_roots@.len() == 0,
            m.constraint_graph.integrity_roots@.len() == 0,
            m.constraint_graph.buses@.len() == 0,
            m.num_random_values == 0,
    {
        Mir { name, constraint_graph: Graph::new(), num_random_values: 0 }
    }

    pub fn constraint_graph(&self) -> (g: &Graph)
        ensures
            g == &self.constraint_graph,
    {
        &self.constraint_graph
    }
}

/// A copy of a list of node indices.
pub fn copy_ids(v: &Vec<NodeId>) -> (r: Vec<NodeId>)
    ensures
        r@ == v@,
{
    let mut r: Vec<NodeId> = Vec::new();
    let mut i: usize = 0;
    while i < v.len()
        invariant
            i <= v@.len(),
            r@ == v@.subrange(0, i as int),
        decreases v@.len() - i,
    {
        r.push(v[i]);
        i = i + 1;
        assert(r@ =~= v@.subrange(0, i as int));
    }
    assert(r@ =~= v@);
    r
}

/// A copy of a leaf value, with the same elements.
pub fn copy_value(v: &MirValue) -> (r: MirValue)
    ensures
        crate::mir::term::value_term(r) == crate::mir::term::value_term(*v),
        !(v is ConstantVector) && !(v is ConstantMatrix) ==> r == *v,
{
    match v {
        MirValue::ConstantVector(es) => MirValue::ConstantVector(copy_u64s(es)),
        MirValue::ConstantMatrix(rows) => {
            let mut out: Vec<Vec<u64>> = Vec::new();
            let mut k: usize = 0;
            while k < rows.len()
                invariant
                    k <= rows@.len(),
                    out@.len() == k,
                    forall|j: int| 0 <= j < k ==> (#[trigger] out@[j])@ == rows@[j]@,
                decreases rows@.len() - k,
            {
                out.push(copy_u64s(&rows[k]));
                k = k + 1;
            }
            proof {
                assert(out@.map_values(|r: Vec<u64>| r@) =~= rows@.map_values(|r: Vec<u64>| r@));
            }
            MirValue::ConstantMatrix(out)
        },
        MirValue::Constant(c) => MirValue::Constant(*c),
        MirValue::TraceAccess(t) => MirValue::TraceAccess(*t),
        MirValue::TraceAccessBinding(b) => MirValue::TraceAccessBinding(*b),
        MirValue::PeriodicColumn(i) => MirValue::PeriodicColumn(*i),
        MirValue::PublicInput(i, j) => MirValue::PublicInput(*i, *j),
        MirValue::RandomValue(i) => MirValue::RandomValue(*i),
        MirValue::RandomValueBinding(b) => MirValue::RandomValueBinding(*b),
        MirValue::BusAccess(b, o) => MirValue::BusAccess(*b, *o),
        MirValue::Null => MirValue::Null,
        MirValue::Unconstrained => MirValue::Unconstrained,
    }
}

/// A copy of a list of numbers.
pub fn copy_u64s(v: &Vec<u64>) -> (r: Vec<u64>)
    ensures
        r@ == v@,
{
    let mut r: Vec<u64> = Vec::new();
    let mut i: usize = 0;
    while i < v.len()
        invariant
            i <= v@.len(),
            r@ == v@.subrange(0, i as int),
        decreases v@.len() - i,
    {
        r.push(v[i]);
        i = i + 1;
        proof {
            assert(r@ =~= v@.subrange(0, i as int));
        }
    }
    proof {
        assert(v@.subrange(0, i as int) =~= v@);
    }
    r
}

} // verus!
