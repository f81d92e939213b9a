use air_ir::typing::{BinType, FunctionType, Kind, Push, ScalarType, Type, TypeError, Typing};

fn felt_binding(len: usize) -> Option<Type> {
    Some(Type::Vector(Some(ScalarType::Felt), len))
}

#[test]
fn test_macro_scalar_type() {
    let unknown: Option<ScalarType> = None;
    assert_eq!(unknown, None::<ScalarType>);
    assert_eq!(Some(ScalarType::Felt), Some(ScalarType::Felt));
    assert_eq!(Some(ScalarType::Bool), Some(ScalarType::Bool));
    assert_eq!(Some(ScalarType::Int), Some(ScalarType::Int));
    assert_eq!(ScalarType::Int.scalar_ty(), Some(ScalarType::Int));
}

#[test]
fn test_macro_type() {
    assert_eq!(None::<Type>.ty(), None::<Type>);
    assert_eq!(Type::Scalar(None).ty(), Some(Type::Scalar(None)));
    assert_eq!(ScalarType::Felt.ty(), Some(Type::Scalar(Some(ScalarType::Felt))));
    assert_eq!(ScalarType::Bool.ty(), Some(Type::Scalar(Some(ScalarType::Bool))));
    assert_eq!(ScalarType::Int.ty(), Some(Type::Scalar(Some(ScalarType::Int))));
    assert_eq!(Type::Vector(None, 5).ty(), Some(Type::Vector(None, 5)));
    assert_eq!(
        Type::Vector(Some(ScalarType::Int), 5).ty(),
        Some(Type::Vector(Some(ScalarType::Int), 5))
    );
    assert_eq!(Type::Matrix(None, 3, 4).ty(), Some(Type::Matrix(None, 3, 4)));
    assert_eq!(
        Type::Matrix(Some(ScalarType::Felt), 3, 4).ty(),
        Some(Type::Matrix(Some(ScalarType::Felt), 3, 4))
    );
}

#[test]
fn test_macro_trace_segment_type() {
    assert_eq!(felt_binding(1), Some(Type::Vector(Some(ScalarType::Felt), 1)));
    assert_eq!(felt_binding(5), Some(Type::Vector(Some(ScalarType::Felt), 5)));
    assert_eq!(Push(vec![]).0, Vec::<Option<Type>>::new());
    assert_eq!(Push(vec![]).push(felt_binding(1)).0, vec![felt_binding(1)]);
    assert_eq!(Push(vec![]).push(felt_binding(5)).0, vec![felt_binding(5)]);
    assert_eq!(
        Push(vec![]).push(felt_binding(1)).push(felt_binding(3)).0,
        vec![felt_binding(1), felt_binding(3)]
    );
}

#[test]
fn test_macro_function_type() {
    let int = Some(Type::Scalar(Some(ScalarType::Int)));
    let felt = Some(Type::Scalar(Some(ScalarType::Felt)));
    let int5 = Some(Type::Vector(Some(ScalarType::Int), 5));
    let felt34 = Some(Type::Matrix(Some(ScalarType::Felt), 3, 4));
    let bool34 = Some(Type::Matrix(Some(ScalarType::Bool), 3, 4));

    assert_eq!(FunctionType::Evaluator(Push(vec![]).0), FunctionType::Evaluator(vec![]));
    assert_eq!(
        FunctionType::Evaluator(Push(vec![]).push(felt_binding(1)).0),
        FunctionType::Evaluator(vec![felt_binding(1)])
    );
    assert_eq!(
        FunctionType::Evaluator(Push(vec![]).push(felt_binding(5)).0),
        FunctionType::Evaluator(vec![felt_binding(5)])
    );
    assert_eq!(
        FunctionType::Evaluator(Push(vec![]).push(felt_binding(1)).push(felt_binding(3)).0),
        FunctionType::Evaluator(vec![felt_binding(1), felt_binding(3)])
    );

    assert_eq!(
        FunctionType::Function(Push(vec![]).push(int).0, felt),
        FunctionType::Function(vec![int], felt)
    );
    assert_eq!(
        FunctionType::Function(Push(vec![]).push(int5).0, felt34),
        FunctionType::Function(vec![int5], felt34)
    );
    assert_eq!(
        FunctionType::Function(Push(vec![]).push(int5).push(felt).0, felt34),
        FunctionType::Function(vec![int5, felt], felt34)
    );
    assert_eq!(
        FunctionType::Function(Push(vec![]).push(int5).push(felt).push(bool34).0, felt34),
        FunctionType::Function(vec![int5, felt, bool34], felt34)
    );

    let f = FunctionType::Function(vec![int5, felt], felt34);
    assert_eq!(f.args(), &[int5, felt][..]);
    assert_eq!(f.ret(), felt34);
    let e = FunctionType::Evaluator(vec![felt_binding(2)]);
    assert_eq!(e.args(), &[felt_binding(2)][..]);
    assert_eq!(e.ret(), None);
}

#[test]
fn test_macro_bin_type() {
    let int = Some(Type::Scalar(Some(ScalarType::Int)));
    let felt = Some(Type::Scalar(Some(ScalarType::Felt)));
    let any = Some(Type::Scalar(None));
    let b = BinType::Add(int, felt, None);
    assert_eq!(b.lhs(), int);
    assert_eq!(b.rhs(), felt);
    assert_eq!(b.ret(), None);
    assert_eq!(BinType::Sub(any, felt, None).lhs(), any);
    assert_eq!(BinType::Eq(None, felt, None).rhs(), felt);
    assert_eq!(BinType::Add(int, None, None), BinType::Add(int, None, None));

    let mut with_ret = BinType::Mul(
        Some(Type::Vector(Some(ScalarType::Int), 2)),
        Some(Type::Vector(Some(ScalarType::Felt), 2)),
        None,
    );
    assert_eq!(with_ret.ret_mut(felt), None);
    assert_eq!(
        with_ret,
        BinType::Mul(
            Some(Type::Vector(Some(ScalarType::Int), 2)),
            Some(Type::Vector(Some(ScalarType::Felt), 2)),
            felt
        )
    );
    assert_eq!(with_ret.lhs_mut(int), Some(Type::Vector(Some(ScalarType::Int), 2)));
    assert_eq!(with_ret.rhs_mut(int), Some(Type::Vector(Some(ScalarType::Felt), 2)));
    assert_eq!(with_ret, BinType::Mul(int, int, felt));
    assert_eq!(
        BinType::Exp(Some(Type::Matrix(Some(ScalarType::Int), 2, 3)), any, None).lhs(),
        Some(Type::Matrix(Some(ScalarType::Int), 2, 3))
    );
}

#[test]
fn test_macro_kind() {
    let int = Some(Type::Scalar(Some(ScalarType::Int)));
    let felt = Some(Type::Scalar(Some(ScalarType::Felt)));
    let empty_ev = FunctionType::Evaluator(Push(vec![]).0);
    assert_eq!(Kind::Callable(empty_ev.clone()), Kind::Callable(FunctionType::Evaluator(vec![])));
    assert!(empty_ev.args().is_empty());
    assert_eq!(empty_ev.ret(), None);
    let ev = FunctionType::Evaluator(Push(vec![]).push(felt_binding(1)).0);
    assert_eq!(Kind::Callable(ev.clone()), Kind::Callable(FunctionType::Evaluator(vec![felt_binding(1)])));
    assert_eq!(ev.args(), &[felt_binding(1)][..]);
    let f = FunctionType::Function(Push(vec![]).push(int).0, felt);
    assert_eq!(Kind::Callable(f.clone()), Kind::Callable(FunctionType::Function(vec![int], felt)));
    assert_eq!(f.args(), &[int][..]);
    assert_eq!(f.ret(), felt);
    assert_ne!(Kind::Callable(f), Kind::Callable(FunctionType::Function(vec![felt], felt)));
    assert_ne!(Kind::Value(int), Kind::Value(None));
    assert_eq!(
        Kind::Value(Some(Type::Matrix(Some(ScalarType::Bool), 3, 4))),
        Kind::Value(Some(Type::Matrix(Some(ScalarType::Bool), 3, 4)))
    );
}

#[test]
fn infer_eq_gives_bool_or_keeps_ret() {
    let felt = Some(Type::Scalar(Some(ScalarType::Felt)));
    let int5 = Some(Type::Vector(Some(ScalarType::Int), 5));
    let int4 = Some(Type::Vector(Some(ScalarType::Int), 4));
    let boolean = Some(Type::Scalar(Some(ScalarType::Bool)));
    assert_eq!(BinType::Eq(felt, felt, None).infer_bin_ty_eq(), Ok(boolean));
    assert_eq!(BinType::Eq(int5, None, None).infer_bin_ty_eq(), Ok(boolean));
    assert_eq!(BinType::Eq(felt, felt, int5).infer_bin_ty_eq(), Ok(int5));
    assert_eq!(
        BinType::Eq(int5, int4, None).infer_bin_ty_eq(),
        Err(TypeError::IncompatibleShapes { ty: int5, new_ty: int4 })
    );
    let add = BinType::Add(felt, felt, None);
    assert_eq!(add.infer_bin_ty_eq(), Err(TypeError::IncompatibleBinOp { bin_ty: add }));
    let wild = Some(Type::Vector(Some(ScalarType::Int), u32::MAX as usize));
    assert_eq!(BinType::Eq(int5, wild, None).infer_bin_ty_eq(), Ok(boolean));
}

#[test]
fn infer_arith_needs_scalars() {
    let felt = Some(Type::Scalar(Some(ScalarType::Felt)));
    let any = Some(Type::Scalar(None));
    let int5 = Some(Type::Vector(Some(ScalarType::Int), 5));
    assert_eq!(BinType::Add(felt, any, None).infer_bin_ty_add(), Ok(None));
    assert_eq!(BinType::Sub(felt, felt, None).infer_bin_ty_sub(), Ok(None));
    assert_eq!(BinType::Mul(any, any, None).infer_bin_ty_mul(), Ok(None));
    let bad = BinType::Add(int5, felt, None);
    assert_eq!(bad.infer_bin_ty_add(), Err(TypeError::IncompatibleBinOp { bin_ty: bad }));
    let unknown = BinType::Mul(None, felt, None);
    assert_eq!(unknown.infer_bin_ty_mul(), Err(TypeError::IncompatibleBinOp { bin_ty: unknown }));
    let wrong_op = BinType::Sub(felt, felt, None);
    assert_eq!(wrong_op.infer_bin_ty_add(), Err(TypeError::IncompatibleBinOp { bin_ty: wrong_op }));
    assert_eq!(BinType::Add(int5, felt, felt).infer_bin_ty_add(), Ok(felt));
}

#[test]
fn infer_exp_keeps_base_type() {
    let felt = Some(Type::Scalar(Some(ScalarType::Felt)));
    let boolean = Some(Type::Scalar(Some(ScalarType::Bool)));
    let int = Some(Type::Scalar(Some(ScalarType::Int)));
    let int3 = Some(Type::Vector(Some(ScalarType::Int), 3));
    assert_eq!(BinType::Exp(felt, int, None).infer_bin_ty_exp(), Ok(felt));
    assert_eq!(BinType::Exp(boolean, int3, None).infer_bin_ty_exp(), Ok(boolean));
    let bad = BinType::Exp(felt, felt, None);
    assert_eq!(bad.infer_bin_ty_exp(), Err(TypeError::IncompatibleBinOp { bin_ty: bad }));
    let vector_base = BinType::Exp(int3, int, None);
    assert_eq!(
        vector_base.infer_bin_ty_exp(),
        Err(TypeError::IncompatibleBinOp { bin_ty: vector_base })
    );
}

#[test]
fn shapes_and_conversions() {
    let felt = Some(Type::Scalar(Some(ScalarType::Felt)));
    let boolean = Some(Type::Scalar(Some(ScalarType::Bool)));
    assert!(felt.is_compatible(&boolean));
    assert!(!felt.is_subtype(&boolean));
    assert!(boolean.is_subtype(&felt));
    let wild = Some(Type::Matrix(None, u32::MAX as usize, 4));
    assert!(Some(Type::Matrix(None, 7, 4)).is_shape_compatible(&wild));
    assert!(!Some(Type::Matrix(None, 7, 5)).is_shape_compatible(&wild));
    assert_eq!(
        Type::Matrix(Some(ScalarType::Int), 2, 2).ty_with_shape(Some(Type::Scalar(None))),
        Some(Type::Scalar(Some(ScalarType::Int)))
    );
    assert_eq!(Type::Scalar(None).ty_with_shape(None), None);
    let b = BinType::Sub(Some(Type::Vector(Some(ScalarType::Felt), 3)), None, None);
    assert_eq!(b.without_shape(), BinType::Sub(felt, None, None));
    assert_eq!(
        b.as_fn(),
        FunctionType::Function(vec![Some(Type::Vector(Some(ScalarType::Felt), 3)), None], None)
    );
    assert!(ScalarType::Int.is_scalar_int());
    assert!(Type::Vector(Some(ScalarType::Felt), 2).is_scalar_felt());
    assert!(Type::Matrix(Some(ScalarType::Bool), 2, 2).is_matrix());
    assert!(!Type::Matrix(Some(ScalarType::Bool), 2, 2).is_vector());
    assert!(boolean.is_scalar_bool() && boolean.is_scalar());
}
