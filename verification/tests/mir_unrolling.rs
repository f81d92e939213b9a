use air_ir::ast::AccessType;
use air_ir::mir::graph::{FoldOperator, Graph, MirType, MirValue, Op, TraceAccess};
use air_ir::mir::loops::unroll_for;
use air_ir::mir::unrolling::{
    unroll_accessor, unroll_add, unroll_constant_matrix, unroll_constant_vector, unroll_enf, unroll_fold,
    arithmetize_if, unroll_if, unroll_matrix, unroll_mul, unroll_node, unroll_trace_access_binding, unroll_value,
    unroll_vector,
};
use air_ir::mir::graph::{RandomValueBinding, TraceAccessBinding};

fn column(g: &mut Graph, column: usize, row_offset: usize) -> usize {
    g.insert_value(MirValue::TraceAccess(TraceAccess { segment: 0, column, row_offset }))
}

#[test]
fn unrolling_an_addition_of_vectors() {
    let mut g = Graph::new();
    let a = column(&mut g, 0, 0);
    let b = column(&mut g, 1, 0);
    let c = column(&mut g, 2, 0);
    let d = column(&mut g, 3, 0);
    let l = g.insert(Op::Vector(vec![a, b]));
    let r = g.insert(Op::Vector(vec![c, d]));
    let sum = g.insert(Op::Add(l, r));
    let v = unroll_add(&mut g, sum).unwrap().unwrap();
    match &g.nodes[v] {
        Op::Vector(es) => {
            assert_eq!(es.len(), 2);
            assert!(matches!(g.nodes[es[0]], Op::Add(x, y) if x == a && y == c));
            assert!(matches!(g.nodes[es[1]], Op::Add(x, y) if x == b && y == d));
        }
        _ => panic!("expected a vector"),
    }
}

#[test]
fn unrolling_a_scalar_operation_changes_nothing() {
    let mut g = Graph::new();
    let a = column(&mut g, 0, 0);
    let b = column(&mut g, 1, 0);
    let prod = g.insert(Op::Mul(a, b));
    let before = g.nodes.len();
    assert_eq!(unroll_mul(&mut g, prod).unwrap(), None);
    assert_eq!(g.nodes.len(), before);
}

#[test]
fn unrolling_a_binding_of_columns() {
    let mut g = Graph::new();
    let binding = g.insert_value(MirValue::TraceAccessBinding(TraceAccessBinding { segment: 1, offset: 3, size: 3 }));
    let v = unroll_value(&mut g, binding).unwrap().unwrap();
    match &g.nodes[v] {
        Op::Vector(es) => {
            assert_eq!(es.len(), 3);
            for (k, id) in es.iter().enumerate() {
                match g.nodes[*id] {
                    Op::Value(MirValue::TraceAccess(ta)) => {
                        assert_eq!(ta, TraceAccess { segment: 1, column: 3 + k, row_offset: 0 })
                    }
                    _ => panic!("expected a trace column"),
                }
            }
        }
        _ => panic!("expected a vector"),
    }
    let single = unroll_trace_access_binding(&mut g, 0, 5, 1);
    assert!(matches!(
        g.nodes[single],
        Op::Value(MirValue::TraceAccess(TraceAccess { segment: 0, column: 5, row_offset: 0 }))
    ));
    let constant = g.insert_value(MirValue::Constant(3));
    assert_eq!(unroll_value(&mut g, constant).unwrap(), None);
}

#[test]
fn unrolling_constants() {
    let mut g = Graph::new();
    let v = unroll_constant_vector(&mut g, &vec![4, 5]);
    match &g.nodes[v] {
        Op::Vector(es) => {
            assert!(matches!(g.nodes[es[0]], Op::Value(MirValue::Constant(4))));
            assert!(matches!(g.nodes[es[1]], Op::Value(MirValue::Constant(5))));
        }
        _ => panic!("expected a vector"),
    }
    let m = unroll_constant_matrix(&mut g, &vec![vec![1, 2], vec![3, 4]]);
    match &g.nodes[m] {
        Op::Matrix(rows) => {
            assert_eq!(rows.len(), 2);
            match &g.nodes[rows[1]] {
                Op::Vector(es) => assert!(matches!(g.nodes[es[0]], Op::Value(MirValue::Constant(3)))),
                _ => panic!("expected a row"),
            }
        }
        _ => panic!("expected a matrix"),
    }
    assert_eq!(unroll_matrix(&mut g, m).unwrap(), None);
}

#[test]
fn unrolling_an_enforced_vector() {
    let mut g = Graph::new();
    let a = column(&mut g, 0, 0);
    let b = column(&mut g, 1, 0);
    let v = g.insert(Op::Vector(vec![a, b]));
    let e = g.insert(Op::Enf(v));
    let r = unroll_enf(&mut g, e).unwrap().unwrap();
    match &g.nodes[r] {
        Op::Vector(es) => {
            assert!(matches!(g.nodes[es[0]], Op::Enf(x) if x == a));
            assert!(matches!(g.nodes[es[1]], Op::Enf(x) if x == b));
        }
        _ => panic!("expected a vector"),
    }
}

#[test]
fn unrolling_a_fold() {
    let mut g = Graph::new();
    let a = column(&mut g, 0, 0);
    let b = column(&mut g, 1, 0);
    let v = g.insert(Op::Vector(vec![a, b]));
    let init = g.insert_value(MirValue::Constant(0));
    let fold = g.insert(Op::Fold(v, FoldOperator::Add, init));
    let r = unroll_fold(&mut g, fold).unwrap().unwrap();
    match g.nodes[r] {
        Op::Add(first, second) => {
            assert_eq!(second, b);
            assert!(matches!(g.nodes[first], Op::Add(x, y) if x == init && y == a));
        }
        _ => panic!("expected an addition"),
    }
    let empty = g.insert(Op::Vector(vec![]));
    let fold = g.insert(Op::Fold(empty, FoldOperator::Mul, init));
    assert_eq!(unroll_fold(&mut g, fold).unwrap(), Some(init));
}

#[test]
fn unrolling_vectors_of_one_element() {
    let mut g = Graph::new();
    let a = column(&mut g, 0, 0);
    let b = column(&mut g, 1, 0);
    let single = g.insert(Op::Vector(vec![a]));
    let pair = g.insert(Op::Vector(vec![a, b]));
    assert_eq!(unroll_vector(&mut g, single).unwrap(), Some(a));
    assert_eq!(unroll_vector(&mut g, pair).unwrap(), None);
}

#[test]
fn unrolling_accesses() {
    let mut g = Graph::new();
    let a = column(&mut g, 0, 1);
    let shifted = g.insert(Op::Accessor(a, AccessType::Default, 2));
    let r = unroll_accessor(&mut g, shifted).unwrap().unwrap();
    assert!(matches!(
        g.nodes[r],
        Op::Value(MirValue::TraceAccess(TraceAccess { segment: 0, column: 0, row_offset: 3 }))
    ));
    let c = g.insert_value(MirValue::Constant(5));
    let b = column(&mut g, 1, 0);
    let v = g.insert(Op::Vector(vec![c, b]));
    let first = g.insert(Op::Accessor(v, AccessType::Index(0), 1));
    assert_eq!(unroll_accessor(&mut g, first).unwrap(), Some(c));
    let m = g.insert(Op::Matrix(vec![v]));
    let elem = g.insert(Op::Accessor(m, AccessType::Matrix(0, 1), 0));
    assert_eq!(unroll_accessor(&mut g, elem).unwrap(), Some(b));
    let p = g.insert(Op::Parameter(0, air_ir::mir::graph::MirType::Felt));
    let on_param = g.insert(Op::Accessor(p, AccessType::Default, 1));
    assert_eq!(unroll_accessor(&mut g, on_param).unwrap(), None);
}

fn loop_graph(with_selector: bool) -> (Graph, usize, [usize; 5]) {
    let mut g = Graph::new();
    let a = column(&mut g, 0, 0);
    let b = column(&mut g, 1, 0);
    let c = column(&mut g, 2, 0);
    let d = column(&mut g, 3, 0);
    let s = column(&mut g, 4, 0);
    let first = g.insert(Op::Vector(vec![a, b]));
    let second = g.insert(Op::Vector(vec![c, d]));
    let p0 = g.insert(Op::Parameter(0, MirType::Felt));
    let p1 = g.insert(Op::Parameter(1, MirType::Felt));
    let body = g.insert(Op::Mul(p0, p1));
    let sel = if with_selector { Some(s) } else { None };
    let for_node = g.insert(Op::For(vec![first, second], body, sel));
    (g, for_node, [a, b, c, d, s])
}

#[test]
fn unrolling_a_loop_over_two_vectors() {
    let (mut g, for_node, [a, b, c, d, _]) = loop_graph(false);
    let v = unroll_for(&mut g, for_node).unwrap().unwrap();
    match &g.nodes[v] {
        Op::Vector(es) => {
            assert_eq!(es.len(), 2);
            assert!(matches!(g.nodes[es[0]], Op::Mul(x, y) if x == a && y == c));
            assert!(matches!(g.nodes[es[1]], Op::Mul(x, y) if x == b && y == d));
        }
        _ => panic!("expected a vector"),
    }
}

#[test]
fn unrolling_a_loop_with_a_selector() {
    let (mut g, for_node, [a, b, c, d, s]) = loop_graph(true);
    let v = unroll_for(&mut g, for_node).unwrap().unwrap();
    let es = match &g.nodes[v] {
        Op::Vector(es) => es.clone(),
        _ => panic!("expected a vector"),
    };
    assert_eq!(es.len(), 2);
    for (k, (x, y)) in [(a, c), (b, d)].iter().enumerate() {
        match g.nodes[es[k]] {
            Op::If(cond, then, other) => {
                assert_eq!(cond, s);
                assert!(matches!(g.nodes[then], Op::Mul(l, r) if l == *x && r == *y));
                assert!(matches!(g.nodes[other], Op::Value(MirValue::Constant(0))));
            }
            _ => panic!("expected a selection"),
        }
    }
}

#[test]
fn unrolling_a_node_by_its_kind() {
    let mut g = Graph::new();
    let a = column(&mut g, 0, 0);
    let b = column(&mut g, 1, 0);
    let l = g.insert(Op::Vector(vec![a]));
    let r = g.insert(Op::Vector(vec![b]));
    let prod = g.insert(Op::Mul(l, r));
    let v = unroll_node(&mut g, prod).unwrap().unwrap();
    assert!(matches!(&g.nodes[v], Op::Vector(es) if es.len() == 1));
    let single = unroll_node(&mut g, l).unwrap();
    assert_eq!(single, Some(a));
    let access = g.insert(Op::Accessor(l, AccessType::Index(0), 0));
    let before = g.nodes.len();
    assert_eq!(unroll_node(&mut g, access).unwrap(), None);
    assert_eq!(g.nodes.len(), before);
}

#[test]
fn unrolling_a_selection_over_vectors() {
    let mut g = Graph::new();
    let c0 = column(&mut g, 0, 0);
    let c1 = column(&mut g, 1, 0);
    let t0 = column(&mut g, 2, 0);
    let t1 = column(&mut g, 3, 0);
    let e0 = column(&mut g, 4, 0);
    let e1 = column(&mut g, 5, 0);
    let c = g.insert(Op::Vector(vec![c0, c1]));
    let t = g.insert(Op::Vector(vec![t0, t1]));
    let e = g.insert(Op::Vector(vec![e0, e1]));
    let sel = g.insert(Op::If(c, t, e));
    let v = unroll_if(&mut g, sel).unwrap().unwrap();
    match &g.nodes[v] {
        Op::Vector(es) => {
            assert_eq!(es.len(), 2);
            assert!(matches!(g.nodes[es[0]], Op::If(x, y, z) if x == c0 && y == t0 && z == e0));
            assert!(matches!(g.nodes[es[1]], Op::If(x, y, z) if x == c1 && y == t1 && z == e1));
        }
        _ => panic!("expected a vector"),
    }
    let short = g.insert(Op::Vector(vec![e0]));
    let mismatched = g.insert(Op::If(c, t, short));
    let before = g.nodes.len();
    assert_eq!(unroll_if(&mut g, mismatched).unwrap(), None);
    assert_eq!(g.nodes.len(), before);
}

#[test]
fn turning_a_selection_into_arithmetic() {
    let mut g = Graph::new();
    let c = column(&mut g, 0, 0);
    let t0 = column(&mut g, 1, 0);
    let t1 = column(&mut g, 2, 0);
    let e = column(&mut g, 3, 0);
    let t = g.insert(Op::Vector(vec![t0, t1]));
    let sel = g.insert(Op::If(c, t, e));
    let v = arithmetize_if(&mut g, sel);
    let es = match &g.nodes[v] {
        Op::Vector(es) => es.clone(),
        _ => panic!("expected a vector"),
    };
    assert_eq!(es.len(), 3);
    assert!(matches!(g.nodes[es[0]], Op::Mul(x, y) if x == c && y == t0));
    assert!(matches!(g.nodes[es[1]], Op::Mul(x, y) if x == c && y == t1));
    match g.nodes[es[2]] {
        Op::Mul(d, y) => {
            assert_eq!(y, e);
            match g.nodes[d] {
                Op::Sub(one, x) => {
                    assert_eq!(x, c);
                    assert!(matches!(g.nodes[one], Op::Value(MirValue::Constant(1))));
                }
                _ => panic!("expected one minus the condition"),
            }
        }
        _ => panic!("expected a product"),
    }
}

fn eval_constant(g: &Graph, n: usize) -> i128 {
    match &g.nodes[n] {
        Op::Value(MirValue::Constant(c)) => *c as i128,
        Op::Add(l, r) => eval_constant(g, *l) + eval_constant(g, *r),
        Op::Sub(l, r) => eval_constant(g, *l) - eval_constant(g, *r),
        Op::Mul(l, r) => eval_constant(g, *l) * eval_constant(g, *r),
        other => panic!("not a constant expression: {:?}", other),
    }
}

#[test]
fn an_arithmetized_selection_picks_a_branch() {
    for cond in [0u64, 1] {
        let mut g = Graph::new();
        let c = g.insert_value(MirValue::Constant(cond));
        let t = g.insert_value(MirValue::Constant(10));
        let e = g.insert_value(MirValue::Constant(20));
        let sel = g.insert(Op::If(c, t, e));
        let v = arithmetize_if(&mut g, sel);
        let es = match &g.nodes[v] {
            Op::Vector(es) => es.clone(),
            _ => panic!("expected a vector"),
        };
        let total = eval_constant(&g, es[0]) + eval_constant(&g, es[1]);
        assert_eq!(total, if cond == 1 { 10 } else { 20 });
    }
}

#[test]
fn a_random_value_binding_unrolls_into_its_values() {
    let mut g = Graph::new();
    let binding = g.insert_value(MirValue::RandomValueBinding(RandomValueBinding { offset: 2, size: 3 }));
    let v = unroll_value(&mut g, binding).unwrap().unwrap();
    match &g.nodes[v] {
        Op::Vector(es) => {
            assert_eq!(es.len(), 3);
            for (i, e) in es.iter().enumerate() {
                assert!(matches!(g.nodes[*e], Op::Value(MirValue::RandomValue(k)) if k == 2 + i));
            }
        }
        other => panic!("expected a vector, got {:?}", other),
    }
}

#[test]
fn constant_vectors_and_matrices_unroll_into_their_elements() {
    let mut g = Graph::new();
    let v = g.insert_value(MirValue::ConstantVector(vec![4, 5]));
    let r = unroll_value(&mut g, v).unwrap().unwrap();
    match &g.nodes[r] {
        Op::Vector(es) => {
            assert_eq!(es.len(), 2);
            assert!(matches!(g.nodes[es[0]], Op::Value(MirValue::Constant(4))));
            assert!(matches!(g.nodes[es[1]], Op::Value(MirValue::Constant(5))));
        }
        other => panic!("expected a vector, got {:?}", other),
    }
    let m = g.insert_value(MirValue::ConstantMatrix(vec![vec![1], vec![2]]));
    let r = unroll_value(&mut g, m).unwrap().unwrap();
    match &g.nodes[r] {
        Op::Matrix(rows) => {
            assert_eq!(rows.len(), 2);
            for (i, row) in rows.iter().enumerate() {
                match &g.nodes[*row] {
                    Op::Vector(es) => {
                        assert_eq!(es.len(), 1);
                        assert!(matches!(g.nodes[es[0]], Op::Value(MirValue::Constant(k)) if k == i as u64 + 1));
                    }
                    other => panic!("expected a row, got {:?}", other),
                }
            }
        }
        other => panic!("expected a matrix, got {:?}", other),
    }
}
