use air_ir::ast::{AccessType, RangeExpr, ScalarType, Type};
use air_ir::mir::graph::{BoundaryKind, FoldOperator, MirType, MirValue, Op, TraceAccess, TraceAccessBinding};
use air_ir::mir::translate::{AstToMir, MirBuilder, Owner};
use air_ir::syntax::{
    BinaryExpr, BinaryOp, Call, Callee, ConstantExpr, EvaluatorFunction, Expr, Function, Identifier, Let,
    ListComprehension, Program, RandBinding, RandomValues, ResolvableIdentifier, ScalarExpr, Statement,
    SymbolAccess, TraceBinding, TraceSegment,
};

fn id(symbol: usize) -> Identifier {
    Identifier { symbol, special: false }
}

fn special(symbol: usize) -> Identifier {
    Identifier { symbol, special: true }
}

const MAIN: usize = 100;
const A: usize = 1;
const B: usize = 2;
const RAND: usize = 101;
const INPUTS: usize = 3;
const PERIODIC: usize = 4;
const X: usize = 5;
const Y: usize = 6;
const DOUBLE: usize = 7;
const EVAL: usize = 8;

fn felt() -> Option<Type> {
    Some(Type::Scalar(ScalarType::Felt))
}

fn segments() -> Vec<TraceSegment> {
    vec![TraceSegment {
        id: 0,
        name: special(MAIN),
        bindings: vec![
            TraceBinding { name: Some(id(A)), segment: 0, offset: 0, size: 1 },
            TraceBinding { name: Some(id(B)), segment: 0, offset: 1, size: 2 },
        ],
    }]
}

fn random_values() -> Option<RandomValues> {
    Some(RandomValues { name: special(RAND), size: 4, bindings: vec![RandBinding { name: id(Y), offset: 2, size: 1 }] })
}

fn builder() -> MirBuilder {
    MirBuilder::new(random_values(), segments(), vec![id(INPUTS)], vec![id(PERIODIC)], vec![(id(DOUBLE), true)])
}

fn access(name: ResolvableIdentifier, access_type: AccessType, offset: usize, ty: Option<Type>) -> SymbolAccess {
    SymbolAccess { name, access_type, offset, ty }
}

fn local(symbol: usize, access_type: AccessType) -> SymbolAccess {
    access(ResolvableIdentifier::Local(id(symbol)), access_type, 0, felt())
}

fn scalar_access(a: SymbolAccess) -> ScalarExpr {
    ScalarExpr::SymbolAccess(a)
}

fn binary(op: BinaryOp, lhs: ScalarExpr, rhs: ScalarExpr) -> BinaryExpr {
    BinaryExpr { op, lhs: Box::new(lhs), rhs: Box::new(rhs) }
}

fn value(b: &MirBuilder, n: usize) -> MirValue {
    match &b.graph.nodes[n] {
        Op::Value(v) => v.clone(),
        other => panic!("expected a value, got {:?}", other),
    }
}

#[test]
fn names_resolve_to_trace_columns_random_values_and_inputs() {
    let mut b = builder();
    let n = b.insert_symbol_access(&local(A, AccessType::Default));
    assert_eq!(value(&b, n), MirValue::TraceAccessBinding(TraceAccessBinding { segment: 0, offset: 0, size: 1 }));
    let n = b.insert_symbol_access(&access(ResolvableIdentifier::Local(id(B)), AccessType::Index(1), 1, felt()));
    assert_eq!(value(&b, n), MirValue::TraceAccess(TraceAccess { segment: 0, column: 2, row_offset: 1 }));
    let n = b.insert_symbol_access(&access(ResolvableIdentifier::Local(special(MAIN)), AccessType::Index(2), 0, felt()));
    assert_eq!(value(&b, n), MirValue::TraceAccess(TraceAccess { segment: 0, column: 2, row_offset: 0 }));
    let n = b.insert_symbol_access(&access(ResolvableIdentifier::Local(special(RAND)), AccessType::Index(3), 0, felt()));
    assert_eq!(value(&b, n), MirValue::RandomValue(3));
    let n = b.insert_symbol_access(&local(Y, AccessType::Default));
    assert_eq!(value(&b, n), MirValue::RandomValue(2));
    let n = b.insert_symbol_access(&local(INPUTS, AccessType::Index(1)));
    assert_eq!(value(&b, n), MirValue::PublicInput(0, 1));
    let n = b.insert_symbol_access(&access(ResolvableIdentifier::Resolved(id(PERIODIC)), AccessType::Default, 0, felt()));
    assert_eq!(value(&b, n), MirValue::PeriodicColumn(0));
}

#[test]
fn exponentiation_by_a_constant_is_expanded_by_squaring() {
    let mut b = builder();
    let e = binary(BinaryOp::Exp, scalar_access(local(A, AccessType::Default)), ScalarExpr::Const(5));
    let r = b.insert_binary_expr(&e).unwrap();
    // the access to `a` is node 0; the power is a copy of `a` times the square of a product
    // of two copies of `a`, every factor a new node
    let (l, rest) = match b.graph.nodes[r] {
        Op::Mul(l, rest) => (l, rest),
        _ => panic!("expected a product"),
    };
    assert_ne!(l, 0);
    assert!(matches!(value(&b, l), MirValue::TraceAccessBinding(_)));
    let (x, y) = match b.graph.nodes[rest] {
        Op::Mul(x, y) => (x, y),
        _ => panic!("expected a square"),
    };
    assert_ne!(x, y);
    for sq in [x, y] {
        match b.graph.nodes[sq] {
            Op::Mul(p, q) => {
                assert_ne!(p, q);
                assert!(p != 0 && q != 0 && p != l && q != l);
                assert!(matches!(value(&b, p), MirValue::TraceAccessBinding(_)));
                assert!(matches!(value(&b, q), MirValue::TraceAccessBinding(_)));
            }
            _ => panic!("expected a product of copies"),
        }
    }
}

#[test]
fn exponent_one_is_a_copy() {
    let mut b = builder();
    let e = binary(BinaryOp::Exp, scalar_access(local(A, AccessType::Default)), ScalarExpr::Const(1));
    let r = b.insert_binary_expr(&e).unwrap();
    assert_ne!(r, 0);
    assert_eq!(value(&b, r), value(&b, 0));
}

#[test]
fn a_bound_name_is_the_bound_node_and_an_access_copies_it() {
    let mut b = builder();
    let bound = b.insert_expr(&Expr::Const(ConstantExpr::Scalar(9))).unwrap();
    b.bindings.push((id(X), bound));
    let r = b.insert_expr(&Expr::SymbolAccess(local(X, AccessType::Default))).unwrap();
    assert_eq!(r, bound);
    let before = b.graph.nodes.len();
    let a = b.insert_symbol_access(&local(X, AccessType::Default));
    assert!(a >= before);
    match b.graph.nodes[a] {
        Op::Accessor(copy, AccessType::Default, 0) => {
            assert_ne!(copy, bound);
            assert!(copy >= before);
            assert_eq!(value(&b, copy), MirValue::Constant(9));
        }
        _ => panic!("expected an access"),
    }
    let c = b.insert_expr(&Expr::Const(ConstantExpr::Scalar(9))).unwrap();
    assert_ne!(c, bound);
}

#[test]
fn exponent_zero_is_one() {
    let mut b = builder();
    let e = binary(BinaryOp::Exp, scalar_access(local(A, AccessType::Default)), ScalarExpr::Const(0));
    let r = b.insert_binary_expr(&e).unwrap();
    assert_eq!(value(&b, r), MirValue::Constant(1));
}

#[test]
fn an_exponent_that_is_not_a_constant_is_an_error() {
    let mut b = builder();
    let e = binary(
        BinaryOp::Exp,
        scalar_access(local(A, AccessType::Default)),
        scalar_access(local(A, AccessType::Default)),
    );
    assert!(b.insert_binary_expr(&e).is_err());
}

#[test]
fn equality_enforces_the_difference() {
    let mut b = builder();
    let e = binary(BinaryOp::Eq, scalar_access(local(A, AccessType::Default)), ScalarExpr::Const(7));
    let r = b.insert_binary_expr(&e).unwrap();
    let sub = match b.graph.nodes[r] {
        Op::Enf(s) => s,
        _ => panic!("expected an enforcement"),
    };
    match b.graph.nodes[sub] {
        Op::Sub(_, r) => assert_eq!(value(&b, r), MirValue::Constant(7)),
        _ => panic!("expected a difference"),
    }
}

#[test]
fn a_let_binds_its_value_for_its_body() {
    let mut b = builder();
    let body = Expr::Binary(binary(BinaryOp::Add, scalar_access(local(X, AccessType::Default)), ScalarExpr::Const(1)));
    let l = Let {
        name: id(X),
        value: Expr::Const(ConstantExpr::Scalar(3)),
        body: vec![Statement::Expr(body)],
    };
    let r = b.insert_expr(&Expr::Let(Box::new(l))).unwrap();
    let (lhs, rhs) = match b.graph.nodes[r] {
        Op::Add(l, r) => (l, r),
        _ => panic!("expected a sum"),
    };
    match b.graph.nodes[lhs] {
        Op::Accessor(bound, AccessType::Default, 0) => assert_eq!(value(&b, bound), MirValue::Constant(3)),
        _ => panic!("expected an access to the bound value"),
    }
    assert_eq!(value(&b, rhs), MirValue::Constant(1));
    assert!(b.bindings.is_empty());
}

#[test]
fn a_range_is_a_vector_constant() {
    let mut b = builder();
    let r = b.insert_expr(&Expr::Range(RangeExpr { start: 2, end: 5 })).unwrap();
    assert_eq!(value(&b, r), MirValue::ConstantVector(vec![2, 3, 4]));
}

#[test]
fn constant_vectors_and_matrices_are_single_values() {
    let mut b = builder();
    let v = b.insert_expr(&Expr::Const(ConstantExpr::Vector(vec![7, 8]))).unwrap();
    assert_eq!(value(&b, v), MirValue::ConstantVector(vec![7, 8]));
    let m = b.insert_expr(&Expr::Const(ConstantExpr::Matrix(vec![vec![1, 2], vec![3, 4]]))).unwrap();
    assert_eq!(value(&b, m), MirValue::ConstantMatrix(vec![vec![1, 2], vec![3, 4]]));
    let e = b.insert_expr(&Expr::Vector(vec![])).unwrap();
    assert_eq!(value(&b, e), MirValue::ConstantVector(vec![]));
}

#[test]
fn a_constant_row_of_a_vector_of_vectors_is_kept() {
    let mut b = builder();
    let rows = Expr::Vector(vec![
        Expr::Const(ConstantExpr::Vector(vec![1, 2])),
        Expr::Vector(vec![Expr::Const(ConstantExpr::Scalar(3)), Expr::Const(ConstantExpr::Scalar(4))]),
    ]);
    let r = b.insert_expr(&rows).unwrap();
    match &b.graph.nodes[r] {
        Op::Matrix(rs) => {
            assert_eq!(rs.len(), 2);
            assert_eq!(value(&b, rs[0]), MirValue::ConstantVector(vec![1, 2]));
            assert!(matches!(&b.graph.nodes[rs[1]], Op::Vector(es) if es.len() == 2));
        }
        _ => panic!("expected a matrix"),
    }
}

#[test]
fn a_comprehension_is_a_loop() {
    let mut b = builder();
    let iterable = Expr::Vector(vec![
        Expr::SymbolAccess(local(A, AccessType::Default)),
        Expr::Const(ConstantExpr::Scalar(4)),
    ]);
    let lc = ListComprehension {
        bindings: vec![id(X)],
        iterables: vec![iterable],
        selector: None,
        body: Box::new(ScalarExpr::Binary(binary(
            BinaryOp::Mul,
            scalar_access(local(X, AccessType::Default)),
            ScalarExpr::Const(2),
        ))),
        ty: Some(Type::Vector(ScalarType::Felt, 2)),
    };
    let r = b.insert_expr(&Expr::ListComprehension(lc)).unwrap();
    let (its, body) = match &b.graph.nodes[r] {
        Op::For(its, body, None) => (its.clone(), *body),
        _ => panic!("expected a loop"),
    };
    assert_eq!(its.len(), 1);
    assert!(matches!(&b.graph.nodes[its[0]], Op::Vector(es) if es.len() == 2));
    let x = match b.graph.nodes[body] {
        Op::Mul(x, _) => x,
        _ => panic!("expected a product"),
    };
    match b.graph.nodes[x] {
        Op::Accessor(p, AccessType::Default, 0) => {
            assert!(matches!(b.graph.nodes[p], Op::Parameter(0, MirType::Felt)))
        }
        _ => panic!("expected an access to the parameter"),
    }
    assert!(b.bindings.is_empty());
}

#[test]
fn a_comprehension_over_a_scalar_is_an_error() {
    let mut b = builder();
    let lc = ListComprehension {
        bindings: vec![id(X)],
        iterables: vec![Expr::Const(ConstantExpr::Scalar(4))],
        selector: None,
        body: Box::new(ScalarExpr::Const(1)),
        ty: None,
    };
    assert!(b.insert_expr(&Expr::ListComprehension(lc)).is_err());
}

#[test]
fn sum_folds_with_zero() {
    let mut b = builder();
    let call = Call {
        callee: Callee::Sum,
        args: vec![Expr::Const(ConstantExpr::Vector(vec![1, 2]))],
        ty: felt(),
    };
    let r = b.insert_expr(&Expr::Call(call)).unwrap();
    match b.graph.nodes[r] {
        Op::Fold(it, FoldOperator::Add, acc) => {
            assert_eq!(value(&b, it), MirValue::ConstantVector(vec![1, 2]));
            assert_eq!(value(&b, acc), MirValue::Constant(0));
        }
        _ => panic!("expected a fold"),
    }
}

#[test]
fn a_function_call_refers_to_the_function_by_index() {
    let mut b = builder();
    let call = Call {
        callee: Callee::Named(id(DOUBLE)),
        args: vec![Expr::Const(ConstantExpr::Scalar(9))],
        ty: felt(),
    };
    let r = b.insert_scalar_expr(&ScalarExpr::Call(call)).unwrap();
    match &b.graph.nodes[r] {
        Op::Call(0, args) => assert_eq!(value(&b, args[0]), MirValue::Constant(9)),
        _ => panic!("expected a call"),
    }
}

#[test]
fn a_boundary_enforcement_becomes_a_root() {
    let mut b = builder();
    let first = ScalarExpr::BoundedSymbolAccess(local(A, AccessType::Default), BoundaryKind::First);
    let stmt = Statement::Enforce(ScalarExpr::Binary(binary(BinaryOp::Eq, first, ScalarExpr::Const(0))));
    let mut owner = Owner::Constraints;
    b.build_statement(&mut owner, &stmt, true).unwrap();
    assert_eq!(b.graph.boundary_roots.len(), 1);
    assert!(b.graph.integrity_roots.is_empty());
    let root = b.graph.boundary_roots[0];
    let sub = match b.graph.nodes[root] {
        Op::Enf(s) => s,
        _ => panic!("expected an enforcement"),
    };
    match b.graph.nodes[sub] {
        Op::Sub(l, _) => assert!(matches!(b.graph.nodes[l], Op::Boundary(BoundaryKind::First, _))),
        _ => panic!("expected a difference"),
    }
}

#[test]
fn an_enforcement_in_a_body_is_wrapped_once() {
    let mut b = builder();
    let stmt = Statement::Enforce(scalar_access(local(A, AccessType::Default)));
    let mut owner = Owner::Evaluator(Vec::new());
    b.build_statement(&mut owner, &stmt, false).unwrap();
    let body = match &owner {
        Owner::Evaluator(body) => body.clone(),
        _ => panic!("expected an evaluator"),
    };
    assert_eq!(body.len(), 1);
    assert!(matches!(b.graph.nodes[body[0]], Op::Enf(_)));
    assert!(b.graph.boundary_roots.is_empty());
}

#[test]
fn lowering_a_program() {
    let double = Function {
        params: vec![(id(X), Type::Scalar(ScalarType::Felt))],
        return_type: Type::Scalar(ScalarType::Felt),
        body: vec![Statement::Expr(Expr::Binary(binary(
            BinaryOp::Add,
            scalar_access(local(X, AccessType::Default)),
            scalar_access(local(X, AccessType::Default)),
        )))],
    };
    let evaluator = EvaluatorFunction {
        params: vec![TraceSegment {
            id: 0,
            name: special(MAIN),
            bindings: vec![TraceBinding { name: Some(id(Y)), segment: 0, offset: 0, size: 1 }],
        }],
        body: vec![Statement::Enforce(scalar_access(local(Y, AccessType::Default)))],
    };
    let boundary = Statement::Enforce(ScalarExpr::Binary(binary(
        BinaryOp::Eq,
        ScalarExpr::BoundedSymbolAccess(local(A, AccessType::Default), BoundaryKind::Last),
        ScalarExpr::Const(1),
    )));
    let program = Program {
        name: "example".to_string(),
        random_values: random_values(),
        trace_columns: segments(),
        public_inputs: vec![id(INPUTS)],
        periodic_columns: vec![],
        functions: vec![(id(DOUBLE), double)],
        evaluators: vec![(id(EVAL), evaluator)],
        boundary_constraints: vec![boundary],
        integrity_constraints: vec![],
    };
    let lowered = AstToMir::new().run(program).unwrap();
    assert_eq!(lowered.mir.name, "example");
    assert_eq!(lowered.mir.num_random_values, 4);
    assert_eq!(lowered.functions.len(), 1);
    let f = &lowered.functions[0];
    let g = &lowered.mir.constraint_graph;
    assert_eq!(f.params.len(), 1);
    assert!(matches!(g.nodes[f.params[0]], Op::Parameter(0, MirType::Felt)));
    assert!(matches!(g.nodes[f.result], Op::Parameter(0, MirType::Felt)));
    assert_eq!(f.body.len(), 1);
    assert!(matches!(g.nodes[f.body[0]], Op::Add(..)));
    assert_eq!(lowered.evaluators.len(), 1);
    let e = &lowered.evaluators[0];
    assert_eq!(e.len(), 2);
    assert!(matches!(
        g.nodes[e[0]],
        Op::Value(MirValue::TraceAccessBinding(TraceAccessBinding { segment: 0, offset: 0, size: 1 }))
    ));
    assert!(matches!(g.nodes[e[1]], Op::Enf(_)));
    assert_eq!(g.boundary_roots.len(), 1);
    assert!(g.integrity_roots.is_empty());
}

fn eval_constant(g: &air_ir::mir::graph::Graph, n: usize) -> i128 {
    match &g.nodes[n] {
        Op::Value(MirValue::Constant(c)) => *c as i128,
        Op::Add(l, r) => eval_constant(g, *l) + eval_constant(g, *r),
        Op::Sub(l, r) => eval_constant(g, *l) - eval_constant(g, *r),
        Op::Mul(l, r) => eval_constant(g, *l) * eval_constant(g, *r),
        other => panic!("not a constant expression: {:?}", other),
    }
}

#[test]
fn expanding_a_power_keeps_its_value() {
    for n in 0..12u64 {
        let mut b = builder();
        let e = binary(BinaryOp::Exp, ScalarExpr::Const(3), ScalarExpr::Const(n));
        let r = b.insert_binary_expr(&e).unwrap();
        assert_eq!(eval_constant(&b.graph, r), 3i128.pow(n as u32));
    }
}

#[test]
fn a_program_with_a_failing_function_is_an_error() {
    let bad = Function {
        params: vec![(id(X), Type::Scalar(ScalarType::Felt))],
        return_type: Type::Scalar(ScalarType::Felt),
        body: vec![Statement::Expr(Expr::Binary(binary(
            BinaryOp::Exp,
            scalar_access(local(X, AccessType::Default)),
            scalar_access(local(X, AccessType::Default)),
        )))],
    };
    let program = Program {
        name: "failing".to_string(),
        random_values: None,
        trace_columns: segments(),
        public_inputs: vec![],
        periodic_columns: vec![],
        functions: vec![(id(DOUBLE), bad)],
        evaluators: vec![],
        boundary_constraints: vec![],
        integrity_constraints: vec![],
    };
    assert!(AstToMir::new().run(program).is_err());
}
