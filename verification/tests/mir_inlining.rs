use air_ir::mir::graph::{CompileError, Graph, MirType, MirValue, Op, TraceAccess, TraceAccessBinding};
use air_ir::mir::inlining::{
    check_evaluator_args, create_inlining_order, unpack_evaluator_args, CallInliningContext, InliningSecondPass,
};

#[test]
fn inlining_order_puts_callees_first() {
    let deps = vec![vec![1, 2], vec![2], vec![]];
    assert_eq!(create_inlining_order(&deps).unwrap(), vec![2, 1, 0]);
}

#[test]
fn inlining_order_of_independent_functions() {
    let deps: Vec<Vec<usize>> = vec![vec![], vec![]];
    assert_eq!(create_inlining_order(&deps).unwrap(), vec![0, 1]);
}

#[test]
fn inlining_order_fails_on_a_cycle() {
    let deps = vec![vec![1], vec![0]];
    assert!(matches!(create_inlining_order(&deps), Err(CompileError::Failed)));
    let deps = vec![vec![0]];
    assert!(create_inlining_order(&deps).is_err());
}

fn evaluator_args(g: &mut Graph) -> (usize, usize) {
    let binding = g.insert_value(MirValue::TraceAccessBinding(TraceAccessBinding { segment: 0, offset: 4, size: 2 }));
    let column = g.insert_value(MirValue::TraceAccess(TraceAccess { segment: 0, column: 9, row_offset: 0 }));
    let param = g.insert(Op::Parameter(0, MirType::Vector(3)));
    let seg = g.insert(Op::Vector(vec![binding, column, param]));
    (seg, column)
}

#[test]
fn evaluator_arguments_are_counted_by_columns() {
    let mut g = Graph::new();
    let (seg, _) = evaluator_args(&mut g);
    assert!(check_evaluator_args(&g, &vec![6], &vec![seg]).is_ok());
    assert!(check_evaluator_args(&g, &vec![5], &vec![seg]).is_err());
    assert!(check_evaluator_args(&g, &vec![], &vec![seg]).is_ok());
}

#[test]
fn evaluator_arguments_are_split_into_columns() {
    let mut g = Graph::new();
    let (seg, column) = evaluator_args(&mut g);
    let before = g.nodes.len();
    let unpacked = unpack_evaluator_args(&mut g, &vec![seg]);
    assert_eq!(unpacked.len(), 4);
    for (k, offset) in [(0usize, 4usize), (1, 5)] {
        assert!(unpacked[k] >= before);
        match g.nodes[unpacked[k]] {
            Op::Value(MirValue::TraceAccessBinding(b)) => {
                assert_eq!(b, TraceAccessBinding { segment: 0, offset, size: 1 });
            }
            _ => panic!("expected a binding"),
        }
    }
    assert_eq!(unpacked[2], column);
    assert!(matches!(g.nodes[unpacked[3]], Op::Parameter(0, MirType::Vector(3))));
}

#[test]
fn inlining_a_function_call_copies_its_result_with_the_arguments() {
    let mut g = Graph::new();
    let p = g.insert(Op::Parameter(0, MirType::Felt));
    let one = g.insert_value(MirValue::Constant(1));
    let result = g.insert(Op::Add(p, one));
    let arg = g.insert_value(MirValue::Constant(7));
    let before = g.nodes.len();
    let ctx = CallInliningContext { body: vec![result], arguments: vec![arg], pure_function: true, evaluator_params: vec![] };
    let mut pass = InliningSecondPass::new();
    let r = pass.inline_call(&mut g, &ctx).unwrap();
    assert!(r >= before);
    match g.nodes[r] {
        Op::Add(x, y) => {
            assert_eq!(x, arg);
            assert!(y >= before);
            assert!(matches!(g.nodes[y], Op::Value(MirValue::Constant(1))));
        }
        _ => panic!("expected the copied sum"),
    }
    assert!(pass.call_inlining_context.is_none());
    assert!(matches!(g.nodes[result], Op::Add(x, y) if x == p && y == one));
}
