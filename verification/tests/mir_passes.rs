use air_ir::ast::AccessType;
use air_ir::mir::bus_op_expand::BusOpExpand;
use air_ir::mir::constant_propagation::ConstantPropagation;
use air_ir::mir::duplicate::duplicate_node;
use air_ir::mir::graph::{Bus, BusOpKind, BusType, Graph, Mir, MirValue, Op, TraceAccess};
use air_ir::mir::visitor::{depth_first_order, visit_postorder, Visit};
use air_ir::mir::subst::duplicate_node_or_replace;
use air_ir::mir::graph::MirType;
use std::collections::HashMap;

fn mir_of(g: Graph) -> Mir {
    Mir { name: "test".to_string(), constraint_graph: g, num_random_values: 0 }
}

#[test]
fn constant_propagation_folds_arithmetic() {
    let mut g = Graph::new();
    let a = g.insert_value(MirValue::Constant(2));
    let b = g.insert_value(MirValue::Constant(3));
    let sum = g.insert(Op::Add(a, b));
    let c = g.insert_value(MirValue::Constant(4));
    let prod = g.insert(Op::Mul(sum, c));
    let e = g.insert(Op::Enf(prod));
    g.insert_integrity_constraints_root(e);
    let out = ConstantPropagation::new().run(mir_of(g)).unwrap();
    let nodes = &out.constraint_graph.nodes;
    assert!(matches!(nodes[sum], Op::Value(MirValue::Constant(5))));
    assert!(matches!(nodes[prod], Op::Value(MirValue::Constant(20))));
    assert!(matches!(nodes[e], Op::Enf(x) if x == prod));
    assert_eq!(out.constraint_graph.integrity_roots, vec![e]);
}

#[test]
fn constant_propagation_folds_sub_and_exp() {
    let mut g = Graph::new();
    let a = g.insert_value(MirValue::Constant(10));
    let b = g.insert_value(MirValue::Constant(4));
    let diff = g.insert(Op::Sub(a, b));
    let two = g.insert_value(MirValue::Constant(2));
    let pow = g.insert(Op::Exp(diff, two));
    let out = ConstantPropagation::new().run(mir_of(g)).unwrap();
    let nodes = &out.constraint_graph.nodes;
    assert!(matches!(nodes[diff], Op::Value(MirValue::Constant(6))));
    assert!(matches!(nodes[pow], Op::Value(MirValue::Constant(36))));
}

#[test]
fn constant_propagation_keeps_non_constants() {
    let mut g = Graph::new();
    let t = g.insert_value(MirValue::TraceAccess(TraceAccess { segment: 0, column: 0, row_offset: 0 }));
    let one = g.insert_value(MirValue::Constant(1));
    let sum = g.insert(Op::Add(t, one));
    let out = ConstantPropagation::new().run(mir_of(g)).unwrap();
    assert!(matches!(out.constraint_graph.nodes[sum], Op::Add(l, r) if l == t && r == one));
}

#[test]
fn constant_propagation_folds_accesses() {
    let mut g = Graph::new();
    let a = g.insert_value(MirValue::Constant(7));
    let b = g.insert_value(MirValue::Constant(8));
    let v = g.insert(Op::Vector(vec![a, b]));
    let second = g.insert(Op::Accessor(v, AccessType::Index(1), 0));
    let c = g.insert_value(MirValue::Constant(9));
    let shifted = g.insert(Op::Accessor(c, AccessType::Default, 1));
    let row2 = g.insert(Op::Vector(vec![a, c]));
    let m = g.insert(Op::Matrix(vec![v, row2]));
    let elem = g.insert(Op::Accessor(m, AccessType::Matrix(1, 1), 0));
    let row = g.insert(Op::Accessor(m, AccessType::Index(0), 2));
    let out = ConstantPropagation::new().run(mir_of(g)).unwrap();
    let nodes = &out.constraint_graph.nodes;
    assert!(matches!(nodes[second], Op::Value(MirValue::Constant(8))));
    assert!(matches!(nodes[shifted], Op::Value(MirValue::Constant(9))));
    assert!(matches!(nodes[elem], Op::Value(MirValue::Constant(9))));
    assert!(matches!(nodes[row], Op::Accessor(r, AccessType::Default, 0) if r == v));
}

#[test]
fn duplicate_node_copies_the_tree() {
    let mut g = Graph::new();
    let a = g.insert_value(MirValue::Constant(1));
    let b = g.insert_value(MirValue::Constant(2));
    let sum = g.insert(Op::Add(a, b));
    let copy = duplicate_node(&mut g, sum);
    assert!(copy > sum);
    match g.nodes[copy] {
        Op::Add(l, r) => {
            assert!(l != a && r != b);
            assert!(matches!(g.nodes[l], Op::Value(MirValue::Constant(1))));
            assert!(matches!(g.nodes[r], Op::Value(MirValue::Constant(2))));
        }
        _ => panic!("expected an addition"),
    }
}

fn unit_bus_graph(bus_type: BusType) -> (Graph, usize, usize) {
    let mut g = Graph::new();
    let x = g.insert_value(MirValue::Constant(7));
    let y = g.insert_value(MirValue::Constant(8));
    let s = g.insert_value(MirValue::Constant(1));
    let col = g.insert(Op::BusOp(0, BusOpKind::Add, vec![x, y], s));
    let null = g.insert_value(MirValue::Null);
    let mut bus = Bus::create(bus_type);
    bus.columns.push(col);
    bus.latches.push(s);
    bus.set_first(null).unwrap();
    g.buses.push(bus);
    (g, null, col)
}

#[test]
fn bus_expansion_of_a_multiset_bus() {
    let (g, null, _) = unit_bus_graph(BusType::Unit);
    let before = g.nodes.len();
    let out = BusOpExpand::new().run(mir_of(g)).unwrap();
    let graph = &out.constraint_graph;
    assert!(matches!(graph.nodes[null], Op::Value(MirValue::Constant(1))));
    assert_eq!(graph.integrity_roots.len(), 1);
    let root = graph.integrity_roots[0];
    assert!(root >= before);
    assert!(matches!(graph.nodes[root], Op::Enf(_)));
    assert_eq!(out.num_random_values, 2);
}

#[test]
fn bus_expansion_of_a_logup_bus() {
    let (g, null, _) = unit_bus_graph(BusType::Mult);
    let out = BusOpExpand::new().run(mir_of(g)).unwrap();
    let graph = &out.constraint_graph;
    assert!(matches!(graph.nodes[null], Op::Value(MirValue::Constant(0))));
    assert_eq!(graph.integrity_roots.len(), 1);
    assert!(matches!(graph.nodes[graph.integrity_roots[0]], Op::Enf(_)));
    assert_eq!(out.num_random_values, 2);
}

#[test]
fn bus_expansion_of_an_empty_bus() {
    let mut g = Graph::new();
    g.buses.push(Bus::create(BusType::Unit));
    let out = BusOpExpand::new().run(mir_of(g)).unwrap();
    assert_eq!(out.constraint_graph.integrity_roots.len(), 1);
    assert_eq!(out.num_random_values, 0);
}

#[test]
fn bus_first_and_last_can_be_set_once() {
    let mut bus = Bus::create(BusType::Unit);
    assert!(bus.set_first(3).is_ok());
    assert!(bus.set_first(4).is_err());
    assert_eq!(bus.get_first(), Some(3));
    assert!(bus.set_last(5).is_ok());
    assert!(bus.set_last(6).is_err());
    assert_eq!(bus.get_last(), Some(5));
}

#[test]
fn depth_first_order_visits_parents_first() {
    let mut g = Graph::new();
    let a = g.insert_value(MirValue::Constant(1));
    let b = g.insert_value(MirValue::Constant(2));
    let sum = g.insert(Op::Add(a, b));
    let e = g.insert(Op::Enf(sum));
    let order = depth_first_order(&g, &vec![e, a]);
    assert_eq!(order, vec![e, sum, a, b, a]);
}

fn constant(g: &mut Graph, c: u64) -> usize {
    g.insert_value(MirValue::Constant(c))
}

#[test]
fn buses_with_empty_boundaries() {
    let mut g = Graph::new();
    let mut roots = vec![];
    for bus_type in [BusType::Unit, BusType::Mult] {
        let first = g.insert_value(MirValue::Null);
        let last = g.insert_value(MirValue::Null);
        let mut bus = Bus::create(bus_type);
        bus.set_first(first).unwrap();
        bus.set_last(last).unwrap();
        g.buses.push(bus);
        roots.push((first, last));
    }
    let out = BusOpExpand::new().run(mir_of(g)).unwrap();
    let nodes = &out.constraint_graph.nodes;
    assert!(matches!(nodes[roots[0].0], Op::Value(MirValue::Constant(1))));
    assert!(matches!(nodes[roots[0].1], Op::Value(MirValue::Constant(1))));
    assert!(matches!(nodes[roots[1].0], Op::Value(MirValue::Constant(0))));
    assert!(matches!(nodes[roots[1].1], Op::Value(MirValue::Constant(0))));
    assert_eq!(out.constraint_graph.integrity_roots.len(), 2);
}

#[test]
fn buses_with_insertions_and_removals() {
    let mut g = Graph::new();
    let one = constant(&mut g, 1);
    let two = constant(&mut g, 2);
    let mut p = Bus::create(BusType::Unit);
    for kind in [BusOpKind::Add, BusOpKind::Rem] {
        let col = g.insert(Op::BusOp(0, kind, vec![one], one));
        p.columns.push(col);
        p.latches.push(one);
    }
    let mut q = Bus::create(BusType::Mult);
    for (kind, latch) in [(BusOpKind::Add, one), (BusOpKind::Add, one), (BusOpKind::Rem, two)] {
        let col = g.insert(Op::BusOp(1, kind, vec![one, two], latch));
        q.columns.push(col);
        q.latches.push(latch);
    }
    g.buses.push(p);
    g.buses.push(q);
    let existing = g.integrity_roots.len();
    let out = BusOpExpand::new().run(mir_of(g)).unwrap();
    let graph = &out.constraint_graph;
    assert_eq!(graph.integrity_roots.len(), existing + 2);
    for root in &graph.integrity_roots {
        assert!(matches!(graph.nodes[*root], Op::Enf(_)));
    }
    assert_eq!(out.num_random_values, 2);
    assert_eq!(out.name, "test");
}

#[test]
fn postorder_visits_each_tree_in_root_order_children_first() {
    let mut g = Graph::new();
    let a = g.insert_value(MirValue::Constant(1));
    let b = g.insert_value(MirValue::Constant(2));
    let c = g.insert(Op::Add(a, b));
    let integrity = g.insert(Op::Enf(c));
    let d = g.insert_value(MirValue::Constant(3));
    let e = g.insert(Op::Mul(d, a));
    let boundary = g.insert(Op::Enf(e));
    g.insert_integrity_constraints_root(integrity);
    g.insert_boundary_constraints_root(boundary);
    // the boundary root comes first although it is stored after the integrity root
    assert_eq!(visit_postorder(&g), vec![d, a, e, boundary, a, b, c, integrity]);
    assert_eq!(visit_postorder(&Graph::new()), Vec::<usize>::new());
}

#[test]
fn copying_a_node_uses_the_images_of_its_operands() {
    let mut g = Graph::new();
    let l = g.insert_value(MirValue::Constant(1));
    let r = g.insert_value(MirValue::Constant(2));
    let l2 = g.insert_value(MirValue::Constant(3));
    let r2 = g.insert_value(MirValue::Constant(4));
    let sub = g.insert(Op::Sub(l, r));
    let mut m: HashMap<usize, usize> = HashMap::new();
    m.insert(l, l2);
    m.insert(r, r2);
    duplicate_node_or_replace(&mut m, &mut g, sub, &vec![]);
    assert_eq!(m.len(), 3);
    assert_eq!(m[&l], l2);
    assert_eq!(m[&r], r2);
    let copy = m[&sub];
    assert_eq!(copy, sub + 1);
    assert!(matches!(g.nodes[copy], Op::Sub(x, y) if x == l2 && y == r2));
    assert!(matches!(g.nodes[sub], Op::Sub(x, y) if x == l && y == r));
}

#[test]
fn copying_a_parameter_gives_the_argument_itself() {
    let mut g = Graph::new();
    let a = g.insert_value(MirValue::Constant(5));
    let b = g.insert_value(MirValue::Constant(6));
    let p = g.insert(Op::Parameter(1, MirType::Felt));
    let before = g.nodes.len();
    let mut m: HashMap<usize, usize> = HashMap::new();
    duplicate_node_or_replace(&mut m, &mut g, p, &vec![a, b]);
    assert_eq!(m[&p], b);
    assert_eq!(g.nodes.len(), before);
}

#[test]
fn depth_first_and_postorder_reach_the_same_nodes() {
    let mut g = Graph::new();
    let a = g.insert_value(MirValue::Constant(1));
    let b = g.insert_value(MirValue::Constant(2));
    let c = g.insert(Op::Add(a, b));
    let _unused = g.insert_value(MirValue::Constant(9));
    let e = g.insert(Op::Mul(c, a));
    let f = g.insert(Op::Enf(e));
    g.insert_integrity_constraints_root(f);
    g.insert_integrity_constraints_root(b);
    let mut walked = depth_first_order(&g, &vec![f, b]);
    walked.sort();
    walked.dedup();
    let mut post = visit_postorder(&g);
    post.sort();
    post.dedup();
    assert_eq!(walked, post);
}

#[test]
fn a_duplicate_shares_nothing_but_the_operand_of_an_enforcement() {
    let mut g = Graph::new();
    let a = g.insert_value(MirValue::Constant(1));
    let b = g.insert_value(MirValue::Constant(2));
    let s = g.insert(Op::Sub(a, b));
    let m = g.insert(Op::Mul(s, a));
    let before = g.nodes.len();
    let copy = duplicate_node(&mut g, m);
    assert!(copy >= before);
    let (x, y) = match g.nodes[copy] {
        Op::Mul(x, y) => (x, y),
        _ => panic!("expected a product"),
    };
    assert!(x >= before && y >= before);
    assert!(matches!(g.nodes[x], Op::Sub(p, q) if p >= before && q >= before));
    let e = g.insert(Op::Enf(s));
    let before = g.nodes.len();
    let copy = duplicate_node(&mut g, e);
    assert!(copy >= before);
    assert!(matches!(g.nodes[copy], Op::Enf(x) if x == s));
}

fn bus_with_null_ends(g: &mut Graph, bus_type: BusType) -> Bus {
    let first = g.insert_value(MirValue::Null);
    let last = g.insert_value(MirValue::Null);
    let mut bus = Bus::create(bus_type);
    bus.set_first(first).unwrap();
    bus.set_last(last).unwrap();
    bus
}

fn push_op(g: &mut Graph, bus: &mut Bus, index: usize, kind: BusOpKind, args: &[u64], latch: u64) {
    let args: Vec<usize> = args.iter().map(|a| g.insert_value(MirValue::Constant(*a))).collect();
    let l = g.insert_value(MirValue::Constant(latch));
    let op = g.insert(Op::BusOp(index, kind, args, l));
    bus.columns.push(op);
    bus.latches.push(l);
}

#[test]
fn buses_in_boundary_constraints() {
    let mut g = Graph::new();
    let p = bus_with_null_ends(&mut g, BusType::Unit);
    let q = bus_with_null_ends(&mut g, BusType::Mult);
    g.buses.push(p);
    g.buses.push(q);
    let a = g.insert_value(MirValue::TraceAccess(TraceAccess { segment: 0, column: 0, row_offset: 0 }));
    let zero = g.insert_value(MirValue::Constant(0));
    let diff = g.insert(Op::Sub(a, zero));
    let root = g.insert(Op::Enf(diff));
    g.insert_integrity_constraints_root(root);
    assert!(BusOpExpand::new().run(mir_of(g)).is_ok());
}

#[test]
fn buses_in_integrity_constraints() {
    let mut g = Graph::new();
    let mut p = bus_with_null_ends(&mut g, BusType::Unit);
    let mut q = bus_with_null_ends(&mut g, BusType::Mult);
    push_op(&mut g, &mut p, 0, BusOpKind::Add, &[1], 1);
    push_op(&mut g, &mut p, 0, BusOpKind::Rem, &[1], 1);
    push_op(&mut g, &mut q, 1, BusOpKind::Add, &[1, 2], 1);
    push_op(&mut g, &mut q, 1, BusOpKind::Add, &[1, 2], 1);
    push_op(&mut g, &mut q, 1, BusOpKind::Rem, &[1, 2], 2);
    g.buses.push(p);
    g.buses.push(q);
    let out = BusOpExpand::new().run(mir_of(g));
    assert!(out.is_ok());
    let out = out.unwrap();
    assert_eq!(out.constraint_graph.integrity_roots.len(), 2);
}

#[test]
fn removing_an_integrity_root_keeps_the_others_in_order() {
    let mut g = Graph::new();
    let a = g.insert_value(MirValue::Constant(1));
    let b = g.insert_value(MirValue::Constant(2));
    let c = g.insert_value(MirValue::Constant(3));
    g.insert_integrity_constraints_root(a);
    g.insert_integrity_constraints_root(b);
    g.insert_integrity_constraints_root(c);
    g.insert_integrity_constraints_root(b);
    g.insert_boundary_constraints_root(b);
    g.remove_integrity_constraints_root(b);
    assert_eq!(g.integrity_roots, vec![a, c]);
    assert_eq!(g.boundary_roots, vec![b]);
}

struct Recorder {
    seen: Vec<usize>,
}

impl Visit for Recorder {
    fn visit(&mut self, _g: &Graph, node: usize) {
        self.seen.push(node);
    }
}

#[test]
fn a_visitor_sees_the_nodes_in_the_chosen_order() {
    let mut g = Graph::new();
    let a = g.insert_value(MirValue::Constant(1));
    let b = g.insert_value(MirValue::Constant(2));
    let c = g.insert(Op::Add(a, b));
    let e = g.insert(Op::Enf(c));
    g.insert_integrity_constraints_root(e);
    g.insert_boundary_constraints_root(b);
    let mut r = Recorder { seen: vec![] };
    r.visit_manual(&g);
    assert_eq!(r.seen, vec![b, e]);
    let mut r = Recorder { seen: vec![] };
    r.visit_postorder(&g);
    assert_eq!(r.seen, vec![b, a, b, c, e]);
    let mut r = Recorder { seen: vec![] };
    r.visit_depthfirst(&g);
    assert_eq!(r.seen, vec![b, e, c, a, b]);
}
