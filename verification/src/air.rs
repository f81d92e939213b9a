//! The internal representation of an AIR: its name, its declarations and its constraints.
use vstd::prelude::*;
use crate::mir::graph::{Graph, NodeId};
use crate::symbol_table::{
    after_inserts, all_valid, cols_before, dup_at, first_fail, input_entries, input_names, lookup,
    periodic_entries, periodic_names, periodic_valid, rows_consistent, same_constant, trace_entries,
    trace_names, widths_for, Constant, ConstantType, IdentifierType, PeriodicColumn, PublicInput, SemanticError, SymbolTable,
    TraceCols,
};

verus! {

/// What an AIR declares: constants, periodic columns (their values), public inputs (with the
/// sizes of their arrays) and the number of columns of each trace segment.
pub struct Declarations {
    pub constants: Vec<Constant>,
    pub periodic_columns: Vec<Vec<u64>>,
    pub public_inputs: Vec<(String, usize)>,
    pub trace_segment_widths: Vec<u16>,
}

impl Declarations {
    /// The declarations a symbol table holds.
    pub fn from_symbol_table(symbol_table: SymbolTable) -> (r: Declarations)
        ensures
            r.trace_segment_widths == symbol_table.segment_widths,
            r.constants == symbol_table.constants,
            r.public_inputs == symbol_table.public_inputs,
            r.periodic_columns == symbol_table.periodic_columns,
    {
        let (trace_segment_widths, constants, public_inputs, periodic_columns) =
            symbol_table.into_declarations();
        Declarations { constants, periodic_columns, public_inputs, trace_segment_widths }
    }
}

/// The constraints of an AIR: the roots of its boundary constraints, of its validity constraints
/// (which hold on each row alone) and of its transition constraints (which relate a row to the
/// next), by trace segment, in the graph that holds them all.
pub struct Constraints {
    pub boundary_constraints: Vec<Vec<NodeId>>,
    pub validity_constraints: Vec<Vec<NodeId>>,
    pub transition_constraints: Vec<Vec<NodeId>>,
    pub graph: Graph,
}

/// An AIR.
pub struct AirIR {
    air_name: String,
    declarations: Declarations,
    constraints: Constraints,
}

impl AirIR {
    pub closed spec fn spec_air_name(&self) -> Seq<char> {
        self.air_name@
    }

    pub closed spec fn spec_declarations(&self) -> &Declarations {
        &self.declarations
    }

    pub closed spec fn spec_constraints(&self) -> &Constraints {
        &self.constraints
    }

    /// An AIR made of its name, declarations and constraints.
    pub fn from_parts(air_name: String, declarations: Declarations, constraints: Constraints) -> (r:
        AirIR)
        ensures
            r.spec_air_name() == air_name@,
            *r.spec_declarations() == declarations,
            *r.spec_constraints() == constraints,
    {
        AirIR { air_name, declarations, constraints }
    }

    pub fn air_name(&self) -> (r: &str)
        ensures
            r@ == self.spec_air_name(),
    {
        self.air_name.as_str()
    }

    pub fn constants(&self) -> (r: &[Constant])
        ensures
            r@ == self.spec_declarations().constants@,
    {
        self.declarations.constants.as_slice()
    }

    pub fn periodic_columns(&self) -> (r: &[Vec<u64>])
        ensures
            r@ == self.spec_declarations().periodic_columns@,
    {
        self.declarations.periodic_columns.as_slice()
    }

    pub fn public_inputs(&self) -> (r: &[(String, usize)])
        ensures
            r@ == self.spec_declarations().public_inputs@,
    {
        self.declarations.public_inputs.as_slice()
    }

    pub fn trace_segment_widths(&self) -> (r: &[u16])
        ensures
            r@ == self.spec_declarations().trace_segment_widths@,
    {
        self.declarations.trace_segment_widths.as_slice()
    }

    /// The number of boundary constraints of a trace segment.
    pub fn num_boundary_constraints(&self, trace_segment: u8) -> (r: usize)
        requires
            (trace_segment as int) < self.spec_constraints().boundary_constraints@.len(),
        ensures
            r == self.spec_constraints().boundary_constraints@[trace_segment as int]@.len(),
    {
        self.constraints.boundary_constraints[trace_segment as usize].len()
    }

    /// The roots of the boundary constraints of a trace segment.
    pub fn boundary_constraints(&self, trace_segment: u8) -> (r: &[NodeId])
        requires
            (trace_segment as int) < self.spec_constraints().boundary_constraints@.len(),
        ensures
            r@ == self.spec_constraints().boundary_constraints@[trace_segment as int]@,
    {
        self.constraints.boundary_constraints[trace_segment as usize].as_slice()
    }

    /// The roots of the validity constraints of a trace segment.
    pub fn validity_constraints(&self, trace_segment: u8) -> (r: &[NodeId])
        requires
            (trace_segment as int) < self.spec_constraints().validity_constraints@.len(),
        ensures
            r@ == self.spec_constraints().validity_constraints@[trace_segment as int]@,
    {
        self.constraints.validity_constraints[trace_segment as usize].as_slice()
    }

    /// The roots of the transition constraints of a trace segment.
    pub fn transition_constraints(&self, trace_segment: u8) -> (r: &[NodeId])
        requires
            (trace_segment as int) < self.spec_constraints().transition_constraints@.len(),
        ensures
            r@ == self.spec_constraints().transition_constraints@[trace_segment as int]@,
    {
        self.constraints.transition_constraints[trace_segment as usize].as_slice()
    }

    pub fn constraint_graph(&self) -> (r: &Graph)
        ensures
            r == &self.spec_constraints().graph,
    {
        &self.constraints.graph
    }
}

/// A section of an AIR source, after parsing: the name of the AIR, a constant, the main and
/// auxiliary trace columns, the public inputs, the periodic columns, or constraints (which
/// are built into the constraint graph separately).
pub enum Section {
    AirDef(String),
    Constant(Constant),
    Trace(Vec<TraceCols>, Vec<TraceCols>),
    PublicInputs(Vec<PublicInput>),
    PeriodicColumns(Vec<PeriodicColumn>),
    Constraints,
}

/// The name of the AIR: that of the last `AirDef` section, "CustomAir" when there is none.
pub open spec fn air_name_of(sections: Seq<Section>) -> Seq<char>
    decreases sections.len(),
{
    if sections.len() == 0 {
        "CustomAir"@
    } else {
        match sections.last() {
            Section::AirDef(name) => name@,
            _ => air_name_of(sections.drop_last()),
        }
    }
}

/// The public inputs declared by the sections, in order: names and sizes.
pub open spec fn inputs_of(sections: Seq<Section>) -> Seq<(Seq<char>, usize)>
    decreases sections.len(),
{
    if sections.len() == 0 {
        Seq::empty()
    } else {
        inputs_of(sections.drop_last()) + match sections.last() {
            Section::PublicInputs(v) => Seq::new(v@.len(), |q: int| (v@[q].name@, v@[q].size)),
            _ => Seq::empty(),
        }
    }
}

/// The values of the periodic columns declared by the sections, in order.
pub open spec fn periodic_of(sections: Seq<Section>) -> Seq<Seq<u64>>
    decreases sections.len(),
{
    if sections.len() == 0 {
        Seq::empty()
    } else {
        periodic_of(sections.drop_last()) + match sections.last() {
            Section::PeriodicColumns(v) => Seq::new(v@.len(), |q: int| v@[q].values@),
            _ => Seq::empty(),
        }
    }
}

/// The constants declared by the sections, in order.
pub open spec fn constants_of(sections: Seq<Section>) -> Seq<Constant>
    decreases sections.len(),
{
    if sections.len() == 0 {
        Seq::empty()
    } else {
        constants_of(sections.drop_last()) + match sections.last() {
            Section::Constant(c) => seq![c],
            _ => Seq::empty(),
        }
    }
}

/// The widths of the trace segments after the trace sections: the main columns make segment
/// 0, the auxiliary columns, when there are any, segment 1.
pub open spec fn widths_of(sections: Seq<Section>) -> Seq<u16>
    decreases sections.len(),
{
    if sections.len() == 0 {
        Seq::empty()
    } else {
        let w = widths_of(sections.drop_last());
        match sections.last() {
            Section::Trace(main, aux) => {
                let w1 = widths_for(w, 0).update(0, cols_before(main@, main@.len() as int) as u16);
                if aux@.len() == 0 {
                    w1
                } else {
                    widths_for(w1, 1).update(1, cols_before(aux@, aux@.len() as int) as u16)
                }
            },
            _ => w,
        }
    }
}

/// What the sections need to be declared without overflow: trace columns whose sizes add up
/// within `usize`, and matrix constants with at least one row.
pub open spec fn sections_ok(sections: Seq<Section>) -> bool {
    forall|k: int|
        0 <= k < sections.len() ==> match #[trigger] sections[k] {
            Section::Trace(main, aux) => cols_before(main@, main@.len() as int) <= usize::MAX
                && cols_before(aux@, aux@.len() as int) <= usize::MAX,
            Section::Constant(c) => c.value matches ConstantType::Matrix(m) ==> m@.len() > 0,
            _ => true,
        }
}

/// The names a list of trace columns declares, all valid.
pub open spec fn trace_decls(cols: Seq<TraceCols>) -> Seq<(Seq<char>, bool)> {
    Seq::new(cols.len(), |p: int| (cols[p].name@, true))
}

/// The names a section declares, in order, each with whether its declaration is valid: trace
/// columns (the auxiliary ones when there are any) and public inputs always are, a periodic
/// column when its cycle is, a constant when its rows agree.
pub open spec fn section_decls(s: Section) -> Seq<(Seq<char>, bool)> {
    match s {
        Section::Trace(main, aux) => trace_decls(main@) + if aux@.len() == 0 {
            Seq::empty()
        } else {
            trace_decls(aux@)
        },
        Section::PublicInputs(v) => Seq::new(v@.len(), |q: int| (v@[q].name@, true)),
        Section::PeriodicColumns(v) => Seq::new(
            v@.len(),
            |q: int| (v@[q].name@, periodic_valid(v@)[q]),
        ),
        Section::Constant(c) => seq![(c.name@, rows_consistent(c.value))],
        _ => Seq::empty(),
    }
}

/// The names the sections declare, in order, each with whether its declaration is valid.
pub open spec fn declared_of(sections: Seq<Section>) -> Seq<(Seq<char>, bool)>
    decreases sections.len(),
{
    if sections.len() == 0 {
        Seq::empty()
    } else {
        declared_of(sections.drop_last()) + section_decls(sections.last())
    }
}

/// Every declaration is valid and declares a name not declared before it.
pub open spec fn declarations_ok(d: Seq<(Seq<char>, bool)>) -> bool {
    &&& forall|p: int, q: int| 0 <= q < p < d.len() ==> d[q].0 != d[p].0
    &&& forall|p: int| 0 <= p < d.len() ==> (#[trigger] d[p]).1
}

/// The names of the declarations.
pub open spec fn decl_names(d: Seq<(Seq<char>, bool)>) -> Seq<Seq<char>> {
    d.map_values(|x: (Seq<char>, bool)| x.0)
}

/// Each of `names` is valid and new: not among `prev`, nor earlier in the list.
pub open spec fn valid_and_new(prev: Seq<Seq<char>>, names: Seq<Seq<char>>, valid: Seq<bool>) -> bool {
    forall|p: int|
        #![trigger names[p]]
        0 <= p < names.len() ==> valid[p] && !prev.contains(names[p]) && !names.subrange(0, p).contains(
            names[p],
        )
}

/// Declaring a list of names fails at no position exactly when each is valid and new: not
/// declared in `ids`, which declares the names `prev`, nor earlier in the list.
proof fn lemma_first_fail_none(
    ids: Seq<(String, IdentifierType)>,
    prev: Seq<Seq<char>>,
    names: Seq<Seq<char>>,
    valid: Seq<bool>,
)
    requires
        names.len() <= valid.len(),
        forall|n: Seq<char>| (#[trigger] lookup(ids, n) is Some) <==> prev.contains(n),
    ensures
        first_fail(ids, names, valid) is None <==> valid_and_new(prev, names, valid),
    decreases names.len(),
{
    if names.len() > 0 {
        let m = names.len() - 1;
        let front = names.drop_last();
        lemma_first_fail_none(ids, prev, front, valid);
        assert(names.subrange(0, m) =~= front);
        assert(lookup(ids, names[m]) is Some <==> prev.contains(names[m]));
        if first_fail(ids, names, valid) is None {
            assert(valid_and_new(prev, front, valid));
            assert(valid_and_new(prev, names, valid)) by {
                assert forall|p: int| 0 <= p < names.len() implies #[trigger] valid[p] && !prev.contains(
                    names[p],
                ) && !names.subrange(0, p).contains(names[p]) by {
                    if p < m {
                        assert(front[p] == names[p]);
                        assert(names.subrange(0, p) =~= front.subrange(0, p));
                        assert(valid[p] && !prev.contains(front[p]) && !front.subrange(0, p).contains(front[p]));
                    }
                }
            }
        }
        if valid_and_new(prev, names, valid) {
            assert(valid_and_new(prev, front, valid)) by {
                assert forall|p: int| 0 <= p < front.len() implies #[trigger] valid[p] && !prev.contains(
                    front[p],
                ) && !front.subrange(0, p).contains(front[p]) by {
                    assert(front[p] == names[p]);
                    assert(names.subrange(0, p) =~= front.subrange(0, p));
                    assert(valid[p] && !prev.contains(names[p]) && !names.subrange(0, p).contains(names[p]));
                }
            }
            assert(valid[m] && !prev.contains(names[m]) && !names.subrange(0, m).contains(names[m]));
            assert(!dup_at(ids, names, m));
        }
    }
}

/// After inserting entries, a name is declared exactly when it was before or is one of them.
proof fn lemma_after_inserts_some(
    ids: Seq<(String, IdentifierType)>,
    entries: Seq<(Seq<char>, IdentifierType)>,
    n: Seq<char>,
)
    ensures
        after_inserts(ids, entries, n) is Some <==> lookup(ids, n) is Some || entries.map_values(
            |e: (Seq<char>, IdentifierType)| e.0,
        ).contains(n),
    decreases entries.len(),
{
    let en = entries.map_values(|e: (Seq<char>, IdentifierType)| e.0);
    if entries.len() > 0 {
        let front = entries.drop_last();
        lemma_after_inserts_some(ids, front, n);
        let fn_ = front.map_values(|e: (Seq<char>, IdentifierType)| e.0);
        assert(en =~= fn_.push(entries.last().0));
        assert(en[en.len() - 1] == entries.last().0);
        if fn_.contains(n) {
            let i = choose|i: int| 0 <= i < fn_.len() && fn_[i] == n;
            assert(en[i] == n);
        }
        if en.contains(n) && entries.last().0 != n {
            let i = choose|i: int| 0 <= i < en.len() && en[i] == n;
            assert(i < fn_.len());
            assert(fn_[i] == n);
        }
    } else {
        assert(!en.contains(n));
    }
}

/// What a table declares, seen through the list of its identifiers.
proof fn lemma_symbols(t: &SymbolTable, prev: Seq<Seq<char>>)
    requires
        forall|n: Seq<char>| (#[trigger] t.symbol(n) is Some) <==> prev.contains(n),
    ensures
        forall|n: Seq<char>| (#[trigger] lookup(t.identifiers@, n) is Some) <==> prev.contains(n),
{
    assert forall|n: Seq<char>| (#[trigger] lookup(t.identifiers@, n) is Some) <==> prev.contains(n) by {
        assert(t.symbol(n) == lookup(t.identifiers@, n));
    }
}

/// The validity flags of the declarations.
pub open spec fn decl_valid(d: Seq<(Seq<char>, bool)>) -> Seq<bool> {
    d.map_values(|x: (Seq<char>, bool)| x.1)
}

/// Declarations that are all valid and new stay so with more declarations appended exactly
/// when the new ones are valid and new.
proof fn lemma_append_ok(d: Seq<(Seq<char>, bool)>, n: Seq<(Seq<char>, bool)>)
    requires
        declarations_ok(d),
    ensures
        declarations_ok(d + n) <==> valid_and_new(decl_names(d), decl_names(n), decl_valid(n)),
{
    let dn = decl_names(d);
    let nn = decl_names(n);
    let all = d + n;
    if declarations_ok(all) {
        assert forall|p: int| 0 <= p < nn.len() implies #[trigger] decl_valid(n)[p] && !dn.contains(nn[p])
            && !nn.subrange(0, p).contains(nn[p]) by {
            assert(all[d.len() + p] == n[p]);
            assert(all[d.len() + p].1);
            if dn.contains(nn[p]) {
                let q = choose|q: int| 0 <= q < dn.len() && dn[q] == nn[p];
                assert(all[q] == d[q]);
                assert(all[q].0 != all[d.len() + p].0);
            }
            if nn.subrange(0, p).contains(nn[p]) {
                let q = choose|q: int| 0 <= q < p && nn.subrange(0, p)[q] == nn[p];
                assert(all[d.len() + q] == n[q]);
                assert(all[d.len() + q].0 != all[d.len() + p].0);
            }
        }
    }
    if valid_and_new(dn, nn, decl_valid(n)) {
        assert forall|p: int, q: int| 0 <= q < p < all.len() implies all[q].0 != all[p].0 by {
            if p >= d.len() {
                let i = p - d.len();
                assert(all[p] == n[i]);
                assert(nn[i] == n[i].0);
                assert(decl_valid(n)[i] && !dn.contains(nn[i]) && !nn.subrange(0, i).contains(nn[i]));
                if q < d.len() {
                    assert(all[q] == d[q]);
                    assert(dn[q] == d[q].0);
                } else {
                    assert(all[q] == n[q - d.len()]);
                    assert(nn.subrange(0, i)[q - d.len()] == nn[q - d.len()]);
                }
            } else {
                assert(all[p] == d[p]);
                assert(all[q] == d[q]);
            }
        }
        assert forall|p: int| 0 <= p < all.len() implies (#[trigger] all[p]).1 by {
            if p >= d.len() {
                let i = p - d.len();
                assert(all[p] == n[i]);
                assert(nn[i] == n[i].0);
                assert(decl_valid(n)[i] == n[i].1);
                assert(decl_valid(n)[i] && !dn.contains(nn[i]) && !nn.subrange(0, i).contains(nn[i]));
            } else {
                assert(all[p] == d[p]);
            }
        }
    }
}

/// Declarations that are all valid and new keep being so when cut short.
proof fn lemma_ok_prefix(d: Seq<(Seq<char>, bool)>, m: int)
    requires
        declarations_ok(d),
        0 <= m <= d.len(),
    ensures
        declarations_ok(d.subrange(0, m)),
{
    let e = d.subrange(0, m);
    assert forall|p: int, q: int| 0 <= q < p < e.len() implies e[q].0 != e[p].0 by {
        assert(e[q] == d[q] && e[p] == d[p]);
    }
    assert forall|p: int| 0 <= p < e.len() implies (#[trigger] e[p]).1 by {
        assert(e[p] == d[p]);
    }
}

/// The names the first sections declare come first among those all sections declare.
proof fn lemma_declared_prefix(ss: Seq<Section>, k: int)
    requires
        0 <= k <= ss.len(),
    ensures
        declared_of(ss.subrange(0, k)).len() <= declared_of(ss).len(),
        declared_of(ss).subrange(0, declared_of(ss.subrange(0, k)).len() as int) == declared_of(
            ss.subrange(0, k),
        ),
    decreases ss.len(),
{
    if k == ss.len() {
        assert(ss.subrange(0, k) =~= ss);
        assert(declared_of(ss).subrange(0, declared_of(ss).len() as int) =~= declared_of(ss));
    } else {
        let f = ss.drop_last();
        lemma_declared_prefix(f, k);
        assert(f.subrange(0, k) =~= ss.subrange(0, k));
        let a = declared_of(ss.subrange(0, k));
        assert(declared_of(ss) == declared_of(f) + section_decls(ss.last()));
        assert(declared_of(ss).subrange(0, a.len() as int) =~= declared_of(f).subrange(0, a.len() as int));
    }
}

/// When declarations within the first `k + 1` sections fail, declaring all sections fails.
proof fn lemma_fail_spreads(ss: Seq<Section>, k: int, d: Seq<(Seq<char>, bool)>)
    requires
        0 <= k < ss.len(),
        d.len() <= declared_of(ss.subrange(0, k + 1)).len(),
        declared_of(ss.subrange(0, k + 1)).subrange(0, d.len() as int) == d,
        !declarations_ok(d),
    ensures
        !declarations_ok(declared_of(ss)),
{
    lemma_declared_prefix(ss, k + 1);
    let a = declared_of(ss.subrange(0, k + 1));
    assert(declared_of(ss).subrange(0, d.len() as int) =~= a.subrange(0, d.len() as int));
    if declarations_ok(declared_of(ss)) {
        lemma_ok_prefix(declared_of(ss), d.len() as int);
    }
}

/// After declaring entries whose names are `names`, a name is declared exactly when it was
/// declared before or is among them.
proof fn lemma_declared_after(
    t: &SymbolTable,
    ids: Seq<(String, IdentifierType)>,
    entries: Seq<(Seq<char>, IdentifierType)>,
    prev: Seq<Seq<char>>,
    names: Seq<Seq<char>>,
)
    requires
        forall|k: Seq<char>| #[trigger] t.symbol(k) == after_inserts(ids, entries, k),
        forall|n: Seq<char>| (#[trigger] lookup(ids, n) is Some) <==> prev.contains(n),
        entries.map_values(|e: (Seq<char>, IdentifierType)| e.0) == names,
    ensures
        forall|n: Seq<char>| (#[trigger] t.symbol(n) is Some) <==> (prev + names).contains(n),
{
    assert forall|n: Seq<char>| (#[trigger] t.symbol(n) is Some) <==> (prev + names).contains(n) by {
        lemma_after_inserts_some(ids, entries, n);
        if prev.contains(n) {
            let i = choose|i: int| 0 <= i < prev.len() && prev[i] == n;
            assert((prev + names)[i] == n);
        }
        if names.contains(n) {
            let i = choose|i: int| 0 <= i < names.len() && names[i] == n;
            assert((prev + names)[prev.len() + i] == n);
        }
        if (prev + names).contains(n) {
            let i = choose|i: int| 0 <= i < (prev + names).len() && (prev + names)[i] == n;
            if i < prev.len() {
                assert(prev[i] == n);
            } else {
                assert(names[i - prev.len()] == n);
            }
        }
    }
}

impl AirIR {
    /// The AIR of the sections of a source, with its constraints: its name is that of the last
    /// `AirDef` section ("CustomAir" when there is none), and its declarations are those of a
    /// symbol table that declares each section in order. It fails exactly when some
    /// declaration is invalid or declares a name declared before.
    pub fn new(sections: &Vec<Section>, constraints: Constraints) -> (r: Result<AirIR, SemanticError>)
        requires
            sections_ok(sections@),
        ensures
            r is Ok <==> declarations_ok(declared_of(sections@)),
            r matches Ok(air) ==> {
                &&& air.spec_air_name() == air_name_of(sections@)
                &&& *air.spec_constraints() == constraints
                &&& air.spec_declarations().public_inputs@.map_values(|x: (String, usize)| (x.0@, x.1))
                    == inputs_of(sections@)
                &&& air.spec_declarations().periodic_columns@.map_values(|x: Vec<u64>| x@)
                    == periodic_of(sections@)
                &&& air.spec_declarations().constants@.len() == constants_of(sections@).len()
                &&& forall|i: int|
                    0 <= i < constants_of(sections@).len() ==> (#[trigger] air.spec_declarations().constants@[i]).name@
                        == constants_of(sections@)[i].name@ && same_constant(
                        air.spec_declarations().constants@[i].value,
                        constants_of(sections@)[i].value,
                    )
                &&& air.spec_declarations().trace_segment_widths@ == widths_of(sections@)
            },
    {
        let mut table = SymbolTable::new();
        let mut name: String = "CustomAir".to_string();
        proof {
            reveal_strlit("CustomAir");
            assert(sections@.subrange(0, 0) =~= Seq::<Section>::empty());
            assert(table.public_inputs@.map_values(|x: (String, usize)| (x.0@, x.1)) =~= Seq::empty());
            assert(table.periodic_columns@.map_values(|x: Vec<u64>| x@) =~= Seq::empty());
            assert(decl_names(declared_of(sections@.subrange(0, 0))) =~= Seq::<Seq<char>>::empty());
        }
        let mut k: usize = 0;
        while k < sections.len()
            invariant
                sections_ok(sections@),
                k <= sections@.len(),
                table.wf(),
                name@ == air_name_of(sections@.subrange(0, k as int)),
                table.public_inputs@.map_values(|x: (String, usize)| (x.0@, x.1)) == inputs_of(
                    sections@.subrange(0, k as int),
                ),
                table.periodic_columns@.map_values(|x: Vec<u64>| x@) == periodic_of(
                    sections@.subrange(0, k as int),
                ),
                table.constants@.len() == constants_of(sections@.subrange(0, k as int)).len(),
                forall|i: int|
                    0 <= i < table.constants@.len() ==> (#[trigger] table.constants@[i]).name@
                        == constants_of(sections@.subrange(0, k as int))[i].name@ && same_constant(
                        table.constants@[i].value,
                        constants_of(sections@.subrange(0, k as int))[i].value,
                    ),
                table.segment_widths@ == widths_of(sections@.subrange(0, k as int)),
                declarations_ok(declared_of(sections@.subrange(0, k as int))),
                forall|n: Seq<char>|
                    (#[trigger] table.symbol(n) is Some) <==> decl_names(
                        declared_of(sections@.subrange(0, k as int)),
                    ).contains(n),
            decreases sections@.len() - k,
        {
            let ghost pre = sections@.subrange(0, k as int);
            let ghost t0 = table;
            let ghost d = declared_of(pre);
            let ghost nd = section_decls(sections@[k as int]);
            proof {
                assert(sections@.subrange(0, k + 1).drop_last() =~= pre);
                assert(sections@.subrange(0, k + 1).last() == sections@[k as int]);
                assert(declared_of(sections@.subrange(0, k + 1)) == d + nd);
                lemma_symbols(&t0, decl_names(d));
            }
            match &sections[k] {
                Section::AirDef(n) => {
                    name = n.clone();
                    proof {
                        assert(d + nd =~= d);
                    }
                },
                Section::Constant(c) => {
                    let res = table.insert_constant(c);
                    proof {
                        let names = seq![c.name@];
                        assert(decl_names(nd) =~= names);
                        assert(decl_valid(nd) =~= seq![rows_consistent(c.value)]);
                        lemma_append_ok(d, nd);
                        assert(names.subrange(0, 0) =~= Seq::<Seq<char>>::empty());
                        assert(t0.symbol(c.name@) is Some <==> decl_names(d).contains(names[0]));
                        if res is Err {
                            assert((d + nd).subrange(0, (d + nd).len() as int) =~= d + nd);
                            lemma_fail_spreads(sections@, k as int, d + nd);
                        } else {
                            assert(decl_names(d + nd) =~= decl_names(d) + names);
                            assert forall|n: Seq<char>| (#[trigger] table.symbol(n) is Some) <==> decl_names(
                                d + nd,
                            ).contains(n) by {
                                if n != c.name@ {
                                    assert(table.symbol(n) == t0.symbol(n));
                                    if decl_names(d).contains(n) {
                                        let i = choose|i: int| 0 <= i < decl_names(d).len() && decl_names(d)[i] == n;
                                        assert(decl_names(d + nd)[i] == n);
                                    }
                                    if decl_names(d + nd).contains(n) {
                                        let i = choose|i: int| 0 <= i < decl_names(d + nd).len() && decl_names(d + nd)[i] == n;
                                        assert(i < decl_names(d).len());
                                        assert(decl_names(d)[i] == n);
                                    }
                                } else {
                                    assert(decl_names(d + nd)[decl_names(d).len() as int] == n);
                                }
                            }
                        }
                    }
                    if let Err(e) = res {
                        return Err(e);
                    }
                    proof {
                        assert(constants_of(sections@.subrange(0, k + 1)) =~= constants_of(pre).push(*c));
                        assert forall|i: int| 0 <= i < table.constants@.len() implies (
                        #[trigger] table.constants@[i]).name@ == constants_of(
                            sections@.subrange(0, k + 1),
                        )[i].name@ && same_constant(
                            table.constants@[i].value,
                            constants_of(sections@.subrange(0, k + 1))[i].value,
                        ) by {
                            if i < t0.constants@.len() {
                                assert(table.constants@[i] == t0.constants@[i]);
                            }
                        }
                    }
                },
                Section::Trace(main, aux) => {
                    let ghost m1 = trace_decls(main@);
                    let res = table.insert_trace_columns(0, main);
                    proof {
                        let names = trace_names(main@);
                        assert(decl_names(m1) =~= names);
                        assert(decl_valid(m1) =~= all_valid(names.len()));
                        lemma_first_fail_none(t0.identifiers@, decl_names(d), names, all_valid(names.len()));
                        lemma_append_ok(d, m1);
                        assert((d + nd).subrange(0, (d + m1).len() as int) =~= d + m1);
                        if res is Err {
                            lemma_fail_spreads(sections@, k as int, d + m1);
                        } else {
                            assert(trace_entries(0, main@).map_values(|e: (Seq<char>, IdentifierType)| e.0) =~= names);
                            lemma_declared_after(&table, t0.identifiers@, trace_entries(0, main@), decl_names(d), names);
                            assert(decl_names(d + m1) =~= decl_names(d) + names);
                        }
                    }
                    if let Err(e) = res {
                        return Err(e);
                    }
                    if aux.len() > 0 {
                        let ghost t1 = table;
                        let ghost m2 = trace_decls(aux@);
                        let res2 = table.insert_trace_columns(1, aux);
                        proof {
                            let names = trace_names(aux@);
                            lemma_symbols(&t1, decl_names(d + m1));
                            assert(decl_names(m2) =~= names);
                            assert(decl_valid(m2) =~= all_valid(names.len()));
                            lemma_first_fail_none(t1.identifiers@, decl_names(d + m1), names, all_valid(names.len()));
                            lemma_append_ok(d + m1, m2);
                            assert(d + nd =~= (d + m1) + m2);
                            if res2 is Err {
                                assert((d + nd).subrange(0, (d + nd).len() as int) =~= d + nd);
                                lemma_fail_spreads(sections@, k as int, d + nd);
                            } else {
                                assert(trace_entries(1, aux@).map_values(|e: (Seq<char>, IdentifierType)| e.0) =~= names);
                                lemma_declared_after(&table, t1.identifiers@, trace_entries(1, aux@), decl_names(d + m1), names);
                                assert(decl_names(d + nd) =~= decl_names(d + m1) + names);
                            }
                        }
                        if let Err(e) = res2 {
                            return Err(e);
                        }
                    } else {
                        proof {
                            assert(d + nd =~= d + m1);
                        }
                    }
                },
                Section::PublicInputs(inputs) => {
                    let res = table.insert_public_inputs(inputs);
                    proof {
                        let names = input_names(inputs@);
                        assert(decl_names(nd) =~= names);
                        assert(decl_valid(nd) =~= all_valid(names.len()));
                        lemma_first_fail_none(t0.identifiers@, decl_names(d), names, all_valid(names.len()));
                        lemma_append_ok(d, nd);
                        if res is Err {
                            assert((d + nd).subrange(0, (d + nd).len() as int) =~= d + nd);
                            lemma_fail_spreads(sections@, k as int, d + nd);
                        } else {
                            assert(input_entries(inputs@).map_values(|e: (Seq<char>, IdentifierType)| e.0) =~= names);
                            lemma_declared_after(&table, t0.identifiers@, input_entries(inputs@), decl_names(d), names);
                            assert(decl_names(d + nd) =~= decl_names(d) + names);
                        }
                    }
                    if let Err(e) = res {
                        return Err(e);
                    }
                    proof {
                        let before = t0.public_inputs@;
                        assert(table.public_inputs@.map_values(|x: (String, usize)| (x.0@, x.1))
                            =~= before.map_values(|x: (String, usize)| (x.0@, x.1)) + Seq::new(
                            inputs@.len(),
                            |q: int| (inputs@[q].name@, inputs@[q].size),
                        )) by {
                            assert forall|i: int| 0 <= i < before.len() implies table.public_inputs@[i]
                                == before[i] by {
                                assert(table.public_inputs@.subrange(0, before.len() as int)[i]
                                    == table.public_inputs@[i]);
                            }
                            assert forall|i: int|
                                before.len() <= i < table.public_inputs@.len() implies table.public_inputs@[i].0@
                                == inputs@[i - before.len()].name@ && table.public_inputs@[i].1
                                == inputs@[i - before.len()].size by {
                                let q = i - before.len();
                                assert(table.public_inputs@[before.len() + q] == table.public_inputs@[i]);
                            }
                        }
                    }
                },
                Section::PeriodicColumns(columns) => {
                    let res = table.insert_periodic_columns(columns);
                    proof {
                        let names = periodic_names(columns@);
                        assert(decl_names(nd) =~= names);
                        assert(decl_valid(nd) =~= periodic_valid(columns@));
                        lemma_first_fail_none(t0.identifiers@, decl_names(d), names, periodic_valid(columns@));
                        lemma_append_ok(d, nd);
                        if res is Err {
                            assert((d + nd).subrange(0, (d + nd).len() as int) =~= d + nd);
                            lemma_fail_spreads(sections@, k as int, d + nd);
                        } else {
                            let entries = periodic_entries(columns@, t0.periodic_columns@.len());
                            assert(entries.map_values(|e: (Seq<char>, IdentifierType)| e.0) =~= names);
                            lemma_declared_after(&table, t0.identifiers@, entries, decl_names(d), names);
                            assert(decl_names(d + nd) =~= decl_names(d) + names);
                        }
                    }
                    if let Err(e) = res {
                        return Err(e);
                    }
                    proof {
                        let before = t0.periodic_columns@;
                        assert(table.periodic_columns@.map_values(|x: Vec<u64>| x@)
                            =~= before.map_values(|x: Vec<u64>| x@) + Seq::new(
                            columns@.len(),
                            |q: int| columns@[q].values@,
                        )) by {
                            assert forall|i: int| 0 <= i < before.len() implies table.periodic_columns@[i]
                                == before[i] by {
                                assert(table.periodic_columns@.subrange(0, before.len() as int)[i]
                                    == table.periodic_columns@[i]);
                            }
                            assert forall|i: int|
                                before.len() <= i < table.periodic_columns@.len() implies table.periodic_columns@[i]@
                                == columns@[i - before.len()].values@ by {
                                let q = i - before.len();
                                assert(table.periodic_columns@[before.len() + q] == table.periodic_columns@[i]);
                            }
                        }
                    }
                },
                Section::Constraints => {
                    proof {
                        assert(d + nd =~= d);
                    }
                },
            }
            k = k + 1;
        }
        proof {
            assert(sections@.subrange(0, k as int) =~= sections@);
        }
        let declarations = Declarations::from_symbol_table(table);
        Ok(AirIR { air_name: name, declarations, constraints })
    }
}

} // verus!
