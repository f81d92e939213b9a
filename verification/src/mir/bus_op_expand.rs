//! The pass that turns every bus into constraints: the boundary values of empty buses become
//! the unit of the bus (one for a product, zero for a sum), and each bus gets one integrity
//! constraint relating the bus column at the current row and at the next one.
use vstd::prelude::*;
use crate::ast::AccessType;
use crate::mir::graph::{all_below, copy_ids, Bus, BusType, CompileError, Graph, Mir, MirValue, NodeId, Op};
use crate::mir::eval::Env;
use crate::mir::term::{term, Term};
use crate::mir::duplicate::{duplicate_node, lemma_extends_trans};
use crate::mir::bus_expand::{
    bus_law, col_args, expand_mult, expand_unit, is_bus_op, lemma_bus_law_kept, lemma_enf_val, lemma_val_kept,
    max_of, mk_value, node_val, random_needed,
};

verus! {

/// The value an empty bus holds: one for a product (multiset bus), zero for a sum of inverses
/// (LogUp bus).
pub open spec fn unit_constant(t: BusType) -> u64 {
    match t {
        BusType::Unit => 1,
        BusType::Mult => 0,
    }
}

/// A boundary slot the expansion knows how to handle: unset, no operation, or the empty value.
pub open spec fn slot_ok(g: Seq<Op>, slot: Option<NodeId>) -> bool {
    slot matches Some(id) ==> id < g.len() && (g[id as int] == Op::Value(MirValue::Null)
        || g[id as int] is Nothing)
}

/// `g` with the empty value in the boundary slot replaced by the unit of a bus of type `t`.
pub open spec fn settle_slot(g: Seq<Op>, slot: Option<NodeId>, t: BusType) -> Seq<Op> {
    match slot {
        Some(id) => if id < g.len() && g[id as int] == Op::Value(MirValue::Null) {
            g.update(id as int, Op::Value(MirValue::Constant(unit_constant(t))))
        } else {
            g
        },
        None => g,
    }
}

/// `g` with the first and then the last boundary slot of `bus` settled.
pub open spec fn settle_bus(g: Seq<Op>, bus: Bus) -> Seq<Op> {
    settle_slot(settle_slot(g, bus.first, bus.bus_type), bus.last, bus.bus_type)
}

/// `g` with the boundary slots of the first `n` buses settled, in order.
pub open spec fn settled(g: Seq<Op>, buses: Seq<Bus>, n: nat) -> Seq<Op>
    decreases n,
{
    if n == 0 {
        g
    } else {
        settle_bus(settled(g, buses, (n - 1) as nat), buses[n - 1])
    }
}

/// Each boundary slot of the first `n` buses can be handled when its turn comes.
pub open spec fn boundaries_ok(g: Seq<Op>, buses: Seq<Bus>, n: nat) -> bool
    decreases n,
{
    if n == 0 {
        true
    } else {
        let h = settled(g, buses, (n - 1) as nat);
        let bus = buses[n - 1];
        &&& boundaries_ok(g, buses, (n - 1) as nat)
        &&& slot_ok(h, bus.first)
        &&& slot_ok(settle_slot(h, bus.first, bus.bus_type), bus.last)
    }
}

/// The columns of `bus` are bus operations, each with fewer than `usize::MAX` arguments.
pub open spec fn bus_ready(g: Seq<Op>, bus: Bus) -> bool {
    forall|i: int|
        0 <= i < bus.columns@.len() ==> is_bus_op(g, #[trigger] bus.columns@[i]) && col_args(
            g,
            bus.columns@[i],
        ).len() < usize::MAX
}

/// Every bus of the graph is ready to be expanded.
pub open spec fn buses_ready(g: &Graph) -> bool {
    forall|b: int| 0 <= b < g.buses@.len() ==> bus_ready(g@, #[trigger] g.buses@[b])
}

/// The constraint bus `b` of `buses` is expanded into, evaluated in the graph `g`.
pub open spec fn bus_constraint(g: Seq<Op>, buses: Seq<Bus>, b: int, env: Env) -> int {
    bus_law(g, b as usize, buses[b].bus_type, buses[b].columns@, buses[b].latches@, env)
}

/// The number of random values the expansion of the first `n` buses uses.
pub open spec fn random_total(g: Seq<Op>, buses: Seq<Bus>, n: nat) -> nat
    decreases n,
{
    if n == 0 {
        0
    } else {
        max_of(
            random_total(g, buses, (n - 1) as nat),
            random_needed(g, buses[n - 1].columns@, buses[n - 1].columns@.len()),
        )
    }
}

/// The boundary conditions of a prefix of the buses hold when they hold of more buses.
proof fn lemma_boundaries_prefix(g: Seq<Op>, buses: Seq<Bus>, n: nat, m: nat)
    requires
        m <= n,
        boundaries_ok(g, buses, n),
    ensures
        boundaries_ok(g, buses, m),
    decreases n,
{
    if m < n {
        lemma_boundaries_prefix(g, buses, (n - 1) as nat, m);
    }
}

/// Settling boundary slots keeps the length and every node that is not a value.
proof fn lemma_settled_keeps(g: Seq<Op>, buses: Seq<Bus>, n: nat)
    ensures
        settled(g, buses, n).len() == g.len(),
        forall|k: int| 0 <= k < g.len() && !(g[k] is Value) ==> #[trigger] settled(g, buses, n)[k] == g[k],
    decreases n,
{
    if n > 0 {
        lemma_settled_keeps(g, buses, (n - 1) as nat);
    }
}

/// The number of random values only depends on the arguments of the columns.
proof fn lemma_random_needed_eq(g1: Seq<Op>, g2: Seq<Op>, cs: Seq<NodeId>, n: nat)
    requires
        n <= cs.len(),
        forall|j: int| 0 <= j < n ==> col_args(g1, #[trigger] cs[j]) == col_args(g2, cs[j]),
    ensures
        random_needed(g1, cs, n) == random_needed(g2, cs, n),
    decreases n,
{
    if n > 0 {
        lemma_random_needed_eq(g1, g2, cs, (n - 1) as nat);
    }
}

/// The nodes of `g0` that are not values are kept in `g`.
pub open spec fn keeps_operations(g0: Seq<Op>, g: Seq<Op>) -> bool {
    &&& g0.len() <= g.len()
    &&& forall|k: int| 0 <= k < g0.len() && !(g0[k] is Value) ==> #[trigger] g[k] == g0[k]
}

/// A graph that keeps the operations of `g0` has the buses of `g0` ready, with the same
/// number of random values.
proof fn lemma_ready_kept(g0: &Graph, g: Seq<Op>, b: int)
    requires
        g0.wf(),
        buses_ready(g0),
        keeps_operations(g0@, g),
        0 <= b < g0.buses@.len(),
    ensures
        bus_ready(g, g0.buses@[b]),
        random_needed(g, g0.buses@[b].columns@, g0.buses@[b].columns@.len()) == random_needed(
            g0@,
            g0.buses@[b].columns@,
            g0.buses@[b].columns@.len(),
        ),
{
    let cs = g0.buses@[b].columns@;
    assert(g0.bus_wf(b));
    assert(bus_ready(g0@, g0.buses@[b]));
    assert forall|m: int| 0 <= m < cs.len() implies is_bus_op(g, #[trigger] cs[m]) && col_args(
        g,
        cs[m],
    ) == col_args(g0@, cs[m]) by {
        assert(is_bus_op(g0@, cs[m]));
        assert(g[cs[m] as int] == g0@[cs[m] as int]);
    }
    lemma_random_needed_eq(g, g0@, cs, cs.len());
}

/// Extending a graph keeps the values of the stored roots and of the bus constraints.
proof fn lemma_roots_kept(g0: &Graph, ga: &Graph, gb: &Graph, base: int, i: int)
    requires
        g0.wf(),
        buses_ready(g0),
        ga.wf(),
        gb.extends(ga),
        keeps_operations(g0@, ga@),
        ga.buses@ == g0.buses@,
        0 <= i <= g0.buses@.len(),
        0 <= base,
        ga.integrity_roots@.len() == base + i,
        forall|j: int, env: Env|
            0 <= j < i ==> node_val(ga@, ga.integrity_roots@[base + j], env)
                == #[trigger] bus_constraint(ga@, g0.buses@, j, env),
    ensures
        forall|j: int, env: Env|
            0 <= j < i ==> node_val(gb@, gb.integrity_roots@[base + j], env)
                == #[trigger] bus_constraint(gb@, g0.buses@, j, env),
{
    assert forall|j: int, env: Env| 0 <= j < i implies node_val(
        gb@,
        gb.integrity_roots@[base + j],
        env,
    ) == #[trigger] bus_constraint(gb@, g0.buses@, j, env) by {
        let bus = g0.buses@[j];
        let r = ga.integrity_roots@[base + j];
        assert(r < ga@.len());
        lemma_val_kept(ga, gb, r);
        lemma_ready_kept(g0, ga@, j);
        assert(ga.bus_wf(j));
        lemma_bus_law_kept(ga, gb, j as usize, bus.bus_type, bus.columns@, bus.latches@);
        assert(node_val(ga@, r, env) == bus_constraint(ga@, g0.buses@, j, env));
    }
}

/// What the expansion of the buses of `ir` gives: the same name; every boundary slot holding
/// the empty value now holds the unit of its bus; the stored operations are kept, with new ones
/// after them; one new integrity root per bus, in the order of the buses, which enforces that
/// the constraint of that bus is zero; and the number of random values these constraints use.
pub open spec fn expanded(ir: Mir, out: Mir) -> bool {
    let g0 = ir.constraint_graph;
    let g = out.constraint_graph;
    let buses = g0.buses@;
    let n = buses.len();
    let base = g0.integrity_roots@.len();
    &&& out.name == ir.name
    &&& g.wf()
    &&& g.buses@ == buses
    &&& g.boundary_roots@ == g0.boundary_roots@
    &&& g0@.len() <= g@.len()
    &&& g@.subrange(0, g0@.len() as int) == settled(g0@, buses, n)
    &&& g.integrity_roots@.len() == base + n
    &&& g.integrity_roots@.subrange(0, base as int) == g0.integrity_roots@
    &&& forall|b: int|
        0 <= b < n ==> (#[trigger] g@[g.integrity_roots@[base + b] as int] matches Op::Enf(d)
            && forall|env: Env| node_val(g@, d, env) == #[trigger] bus_constraint(g@, buses, b, env))
    &&& out.num_random_values == random_total(g0@, buses, n) as u16
}

/// Expands the pass's buses.
pub struct BusOpExpand {}

impl BusOpExpand {
    pub fn new() -> (r: BusOpExpand) {
        BusOpExpand {}
    }


    /// Replaces the empty value in a boundary slot of a bus by the unit of the bus.
    fn handle_boundary_constraint(&self, g: &mut Graph, bus_type: BusType, link: Option<NodeId>)
        requires
            old(g).wf(),
            slot_ok(old(g)@, link),
        ensures
            final(g).wf(),
            final(g)@ == settle_slot(old(g)@, link, bus_type),
            final(g).boundary_roots@ == old(g).boundary_roots@,
            final(g).integrity_roots@ == old(g).integrity_roots@,
            final(g).buses@ == old(g).buses@,
    {
        if let Some(id) = link {
            let is_null = match &g.nodes[id] {
                Op::Value(MirValue::Null) => true,
                _ => false,
            };
            if is_null {
                let unit: u64 = match bus_type {
                    BusType::Unit => 1,
                    BusType::Mult => 0,
                };
                g.set_value(id, MirValue::Constant(unit));
            }
        }
    }

    /// Expands every bus of `ir`. The boundary slots of all the buses are settled first, then
    /// each bus, in order, gets its integrity constraint.
    pub fn run(&mut self, ir: Mir) -> (r: Result<Mir, CompileError>)
        requires
            ir.constraint_graph.wf(),
            buses_ready(&ir.constraint_graph),
            boundaries_ok(
                ir.constraint_graph@,
                ir.constraint_graph.buses@,
                ir.constraint_graph.buses@.len(),
            ),
        ensures
            r is Ok,
            r matches Ok(out) ==> expanded(ir, out),
    {
        let ghost g0 = ir.constraint_graph;
        let Mir { name, constraint_graph, num_random_values: _ } = ir;
        let mut g = constraint_graph;
        let nb = g.buses.len();
        let mut i: usize = 0;
        while i < nb
            invariant
                g.wf(),
                i <= nb,
                nb == g0.buses@.len(),
                g@ == settled(g0@, g0.buses@, i as nat),
                g.buses@ == g0.buses@,
                g.boundary_roots@ == g0.boundary_roots@,
                g.integrity_roots@ == g0.integrity_roots@,
                boundaries_ok(g0@, g0.buses@, nb as nat),
            decreases nb - i,
        {
            proof {
                lemma_boundaries_prefix(g0@, g0.buses@, nb as nat, (i + 1) as nat);
            }
            let t = g.buses[i].bus_type;
            let first = g.buses[i].first;
            let last = g.buses[i].last;
            self.handle_boundary_constraint(&mut g, t, first);
            self.handle_boundary_constraint(&mut g, t, last);
            i = i + 1;
        }
        let ghost gs = g;
        let ghost base = g0.integrity_roots@.len() as int;
        proof {
            lemma_settled_keeps(g0@, g0.buses@, nb as nat);
            assert(g@.subrange(0, gs@.len() as int) =~= gs@);
        }
        let mut max_random: usize = 0;
        let mut i: usize = 0;
        while i < nb
            invariant
                g.wf(),
                g0.wf(),
                buses_ready(&g0),
                i <= nb,
                nb == g0.buses@.len(),
                base == g0.integrity_roots@.len(),
                gs@ == settled(g0@, g0.buses@, nb as nat),
                gs@.len() == g0@.len(),
                gs@.len() <= g@.len(),
                g@.subrange(0, gs@.len() as int) == gs@,
                keeps_operations(g0@, g@),
                g.buses@ == g0.buses@,
                g.boundary_roots@ == g0.boundary_roots@,
                g.integrity_roots@.len() == base + i,
                g.integrity_roots@.subrange(0, base) == g0.integrity_roots@,
                forall|j: int, env: Env|
                    0 <= j < i ==> node_val(g@, g.integrity_roots@[base + j], env)
                        == #[trigger] bus_constraint(g@, g0.buses@, j, env),
                forall|j: int| 0 <= j < i ==> #[trigger] g@[g.integrity_roots@[base + j] as int] is Enf,
                max_random as nat == random_total(g0@, g0.buses@, i as nat),
            decreases nb - i,
        {
            let ghost ga = g;
            proof {
                lemma_ready_kept(&g0, g@, i as int);
            }
            let root = expand_bus(&mut g, i, &mut max_random);
            let ghost gb = g;
            proof {
                lemma_roots_kept(&g0, &ga, &gb, base, i as int);
                assert(gb@.subrange(0, gs@.len() as int) =~= ga@.subrange(0, gs@.len() as int));
                assert forall|k: int| 0 <= k < g0@.len() && !(g0@[k] is Value) implies #[trigger] gb@[k]
                    == g0@[k] by {
                    assert(gb@.subrange(0, ga@.len() as int)[k] == gb@[k]);
                }
            }
            g.insert_integrity_constraints_root(root);
            proof {
                assert(g.integrity_roots@.subrange(0, base) =~= gb.integrity_roots@.subrange(0, base));
                assert forall|j: int, env: Env| 0 <= j < i + 1 implies node_val(
                    g@,
                    g.integrity_roots@[base + j],
                    env,
                ) == #[trigger] bus_constraint(g@, g0.buses@, j, env) by {
                    if j < i {
                        assert(g.integrity_roots@[base + j] == gb.integrity_roots@[base + j]);
                    } else {
                        assert(g.integrity_roots@[base + j] == root);
                    }
                }
                assert forall|j: int| 0 <= j < i + 1 implies #[trigger] g@[g.integrity_roots@[base
                    + j] as int] is Enf by {
                    if j < i {
                        let r = ga.integrity_roots@[base + j];
                        assert(g.integrity_roots@[base + j] == r);
                        assert(r < ga@.len());
                        assert(gb@.subrange(0, ga@.len() as int)[r as int] == gb@[r as int]);
                    } else {
                        assert(g.integrity_roots@[base + j] == root);
                    }
                }
            }
            i = i + 1;
        }
        proof {
            assert(g.integrity_roots@.subrange(0, base) == g0.integrity_roots@);
            assert forall|b: int| 0 <= b < nb implies (#[trigger] g@[g.integrity_roots@[base + b] as int]
                matches Op::Enf(d) && forall|env: Env| node_val(g@, d, env)
                == #[trigger] bus_constraint(g@, g0.buses@, b, env)) by {
                let r = g.integrity_roots@[base + b];
                assert(g@[r as int] is Enf);
                lemma_enf_val(&g, r);
                assert forall|env: Env| node_val(g@, g@[r as int]->Enf_0, env)
                    == #[trigger] bus_constraint(g@, g0.buses@, b, env) by {
                    assert(node_val(g@, r, env) == bus_constraint(g@, g0.buses@, b, env));
                }
            }
        }
        Ok(Mir { name, constraint_graph: g, num_random_values: max_random as u16 })
    }
}

/// Expands bus `b` into one constraint, stored but not yet made a root.
fn expand_bus(g: &mut Graph, b: usize, max_random: &mut usize) -> (root: NodeId)
    requires
        old(g).wf(),
        b < old(g).buses@.len(),
        bus_ready(old(g)@, old(g).buses@[b as int]),
    ensures
        final(g).wf(),
        final(g).extends(old(g)),
        root < final(g)@.len(),
        final(g)@[root as int] is Enf,
        forall|env: Env| #[trigger] node_val(final(g)@, root, env) == bus_constraint(
            final(g)@,
            final(g).buses@,
            b as int,
            env,
        ),
        *final(max_random) as nat == max_of(
            *old(max_random) as nat,
            random_needed(
                old(g)@,
                old(g).buses@[b as int].columns@,
                old(g).buses@[b as int].columns@.len(),
            ),
        ),
{
    let ghost g0 = *g;
    proof {
        assert(g0.bus_wf(b as int));
    }
    let cs = copy_ids(&g.buses[b].columns);
    let ls = copy_ids(&g.buses[b].latches);
    let t = g.buses[b].bus_type;
    let p = mk_value(g, MirValue::BusAccess(b, 0));
    let ghost g1 = *g;
    let dup = duplicate_node(g, p);
    let ghost g2 = *g;
    let p1 = g.insert(Op::Accessor(dup, AccessType::Default, 1));
    let ghost g3 = *g;
    proof {
        lemma_extends_trans(&g0, &g1, &g2);
        lemma_extends_trans(&g0, &g2, &g3);
        lemma_extends_trans(&g1, &g2, &g3);
        assert(term(g3@, dup as nat) == term(g2@, dup as nat)) by {
            crate::mir::duplicate::lemma_term_kept(&g2, &g3, dup as nat);
        }
        assert(term(g1@, p as nat) == Term::Value(MirValue::BusAccess(b, 0)));
        crate::mir::duplicate::lemma_term_kept(&g1, &g3, p as nat);
        assert forall|i: int| 0 <= i < cs@.len() implies is_bus_op(g3@, #[trigger] cs@[i])
            && col_args(g3@, cs@[i]) == col_args(g0@, cs@[i]) by {
            assert(is_bus_op(g0@, cs@[i]));
            assert(g3@.subrange(0, g0@.len() as int)[cs@[i] as int] == g3@[cs@[i] as int]);
        }
        lemma_random_needed_eq(g3@, g0@, cs@, cs@.len());
        assert forall|env: Env| #[trigger] node_val(g3@, p1, env) == (env.bus)(b, 1) by {
            assert(node_val(g3@, p1, env) == crate::mir::eval::eval_at(
                term(g2@, p as nat),
                env,
                1,
            ));
        }
    }
    let root = match t {
        BusType::Unit => expand_unit(g, b, &cs, &ls, p, p1, max_random),
        BusType::Mult => expand_mult(g, &cs, &ls, p, p1, max_random),
    };
    proof {
        lemma_extends_trans(&g0, &g3, g);
        lemma_bus_law_kept(&g3, g, b, t, cs@, ls@);
        lemma_bus_law_kept(&g0, &g3, b, t, cs@, ls@);
    }
    root
}

/// The empty value in a boundary slot of a bus becomes the identity of the bus's operation:
/// for a multiset bus, whose columns are products, a value that leaves any factor unchanged;
/// for a LogUp bus, whose columns are sums, a value that leaves any term unchanged. Nothing
/// else in the graph changes.
pub proof fn lemma_settled_slot_is_unit(g: Seq<Op>, id: NodeId, t: BusType)
    requires
        id < g.len(),
        g[id as int] == Op::Value(MirValue::Null),
    ensures
        settle_slot(g, Some(id), t)[id as int] matches Op::Value(MirValue::Constant(v)) && forall|
            x: int,
        |
            #![trigger v * x]
            #![trigger v + x]
            (t is Unit ==> v * x == x) && (t is Mult ==> v + x == x),
        settle_slot(g, Some(id), t).len() == g.len(),
        forall|j: int| 0 <= j < g.len() && j != id ==> #[trigger] settle_slot(g, Some(id), t)[j] == g[j],
{
}

} // verus!
