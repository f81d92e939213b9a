use air_ir::typing::{ScalarType, Type, Typing};

#[test]
fn lib_test_typing() {
    assert_eq!(None::<Type>.ty(), None);
    assert_eq!(None::<Type>.scalar_ty(), None);
    assert_eq!(Some(Type::Scalar(None)).ty(), Some(Type::Scalar(None)));
    assert_eq!(Some(Type::Scalar(None)).scalar_ty(), None);
    assert_eq!(Some(Type::Scalar(Some(ScalarType::Int))).ty(), Some(Type::Scalar(Some(ScalarType::Int))));
    assert_eq!(Some(Type::Scalar(Some(ScalarType::Int))).scalar_ty(), Some(ScalarType::Int));
    assert_eq!(Some(Type::Scalar(Some(ScalarType::Felt))).ty(), Some(Type::Scalar(Some(ScalarType::Felt))));
    assert_eq!(Some(Type::Scalar(Some(ScalarType::Felt))).scalar_ty(), Some(ScalarType::Felt));
    assert_eq!(Some(Type::Scalar(Some(ScalarType::Bool))).ty(), Some(Type::Scalar(Some(ScalarType::Bool))));
    assert_eq!(Some(Type::Scalar(Some(ScalarType::Bool))).scalar_ty(), Some(ScalarType::Bool));
    assert_eq!(Some(Type::Vector(None, 5)).ty(), Some(Type::Vector(None, 5)));
    assert_eq!(Some(Type::Vector(None, 5)).scalar_ty(), None);
    assert_eq!(Some(Type::Vector(Some(ScalarType::Int), 5)).ty(), Some(Type::Vector(Some(ScalarType::Int), 5)));
    assert_eq!(Some(Type::Vector(Some(ScalarType::Int), 5)).scalar_ty(), Some(ScalarType::Int));
    assert_eq!(Some(Type::Vector(Some(ScalarType::Felt), 5)).ty(), Some(Type::Vector(Some(ScalarType::Felt), 5)));
    assert_eq!(Some(Type::Vector(Some(ScalarType::Felt), 5)).scalar_ty(), Some(ScalarType::Felt));
    assert_eq!(Some(Type::Vector(Some(ScalarType::Bool), 5)).ty(), Some(Type::Vector(Some(ScalarType::Bool), 5)));
    assert_eq!(Some(Type::Vector(Some(ScalarType::Bool), 5)).scalar_ty(), Some(ScalarType::Bool));
    assert_eq!(Some(Type::Matrix(None, 3, 4)).ty(), Some(Type::Matrix(None, 3, 4)));
    assert_eq!(Some(Type::Matrix(None, 3, 4)).scalar_ty(), None);
    assert_eq!(Some(Type::Matrix(Some(ScalarType::Int), 3, 4)).ty(), Some(Type::Matrix(Some(ScalarType::Int), 3, 4)));
    assert_eq!(Some(Type::Matrix(Some(ScalarType::Int), 3, 4)).scalar_ty(), Some(ScalarType::Int));
    assert_eq!(Some(Type::Matrix(Some(ScalarType::Felt), 3, 4)).ty(), Some(Type::Matrix(Some(ScalarType::Felt), 3, 4)));
    assert_eq!(Some(Type::Matrix(Some(ScalarType::Felt), 3, 4)).scalar_ty(), Some(ScalarType::Felt));
    assert_eq!(Some(Type::Matrix(Some(ScalarType::Bool), 3, 4)).ty(), Some(Type::Matrix(Some(ScalarType::Bool), 3, 4)));
    assert_eq!(Some(Type::Matrix(Some(ScalarType::Bool), 3, 4)).scalar_ty(), Some(ScalarType::Bool));
}

#[test]
fn test_typing_subtype() {
    assert!(None::<Type>.is_subtype(&None::<Type>));
    assert!(None::<Type>.is_subtype(&Some(Type::Scalar(None))));
    assert!(None::<Type>.is_subtype(&Some(Type::Scalar(Some(ScalarType::Int)))));
    assert!(None::<Type>.is_subtype(&Some(Type::Scalar(Some(ScalarType::Felt)))));
    assert!(None::<Type>.is_subtype(&Some(Type::Scalar(Some(ScalarType::Bool)))));
    assert!(None::<Type>.is_subtype(&Some(Type::Vector(None, 5))));
    assert!(None::<Type>.is_subtype(&Some(Type::Vector(Some(ScalarType::Int), 5))));
    assert!(None::<Type>.is_subtype(&Some(Type::Vector(Some(ScalarType::Felt), 5))));
    assert!(None::<Type>.is_subtype(&Some(Type::Vector(Some(ScalarType::Bool), 5))));
    assert!(None::<Type>.is_subtype(&Some(Type::Matrix(None, 3, 4))));
    assert!(None::<Type>.is_subtype(&Some(Type::Matrix(Some(ScalarType::Int), 3, 4))));
    assert!(None::<Type>.is_subtype(&Some(Type::Matrix(Some(ScalarType::Felt), 3, 4))));
    assert!(None::<Type>.is_subtype(&Some(Type::Matrix(Some(ScalarType::Bool), 3, 4))));

    assert!(Some(Type::Scalar(None)).is_subtype(&None::<Type>));
    assert!(Some(Type::Scalar(None)).is_subtype(&Some(Type::Scalar(None))));
    assert!(Some(Type::Scalar(None)).is_subtype(&Some(Type::Scalar(Some(ScalarType::Int)))));
    assert!(Some(Type::Scalar(None)).is_subtype(&Some(Type::Scalar(Some(ScalarType::Felt)))));
    assert!(Some(Type::Scalar(None)).is_subtype(&Some(Type::Scalar(Some(ScalarType::Bool)))));
    assert!(!Some(Type::Scalar(None)).is_subtype(&Some(Type::Vector(None, 5))));
    assert!(!Some(Type::Scalar(None)).is_subtype(&Some(Type::Vector(Some(ScalarType::Int), 5))));
    assert!(!Some(Type::Scalar(None)).is_subtype(&Some(Type::Vector(Some(ScalarType::Felt), 5))));
    assert!(!Some(Type::Scalar(None)).is_subtype(&Some(Type::Vector(Some(ScalarType::Bool), 5))));
    assert!(!Some(Type::Scalar(None)).is_subtype(&Some(Type::Matrix(None, 3, 4))));
    assert!(!Some(Type::Scalar(None)).is_subtype(&Some(Type::Matrix(Some(ScalarType::Int), 3, 4))));
    assert!(!Some(Type::Scalar(None)).is_subtype(&Some(Type::Matrix(Some(ScalarType::Felt), 3, 4))));
    assert!(!Some(Type::Scalar(None)).is_subtype(&Some(Type::Matrix(Some(ScalarType::Bool), 3, 4))));

    assert!(Some(Type::Scalar(Some(ScalarType::Int))).is_subtype(&None::<Type>));
    assert!(Some(Type::Scalar(Some(ScalarType::Int))).is_subtype(&Some(Type::Scalar(None))));
    assert!(Some(Type::Scalar(Some(ScalarType::Int))).is_subtype(&Some(Type::Scalar(Some(ScalarType::Int)))));
    assert!(!Some(Type::Scalar(Some(ScalarType::Int))).is_subtype(&Some(Type::Scalar(Some(ScalarType::Felt)))));
    assert!(!Some(Type::Scalar(Some(ScalarType::Int))).is_subtype(&Some(Type::Scalar(Some(ScalarType::Bool)))));
    assert!(!Some(Type::Scalar(Some(ScalarType::Int))).is_subtype(&Some(Type::Vector(None, 5))));
    assert!(!Some(Type::Scalar(Some(ScalarType::Int))).is_subtype(&Some(Type::Vector(Some(ScalarType::Int), 5))));
    assert!(!Some(Type::Scalar(Some(ScalarType::Int))).is_subtype(&Some(Type::Vector(Some(ScalarType::Felt), 5))));
    assert!(!Some(Type::Scalar(Some(ScalarType::Int))).is_subtype(&Some(Type::Vector(Some(ScalarType::Bool), 5))));
    assert!(!Some(Type::Scalar(Some(ScalarType::Int))).is_subtype(&Some(Type::Matrix(None, 3, 4))));
    assert!(!Some(Type::Scalar(Some(ScalarType::Int))).is_subtype(&Some(Type::Matrix(Some(ScalarType::Int), 3, 4))));
    assert!(!Some(Type::Scalar(Some(ScalarType::Int))).is_subtype(&Some(Type::Matrix(Some(ScalarType::Felt), 3, 4))));
    assert!(!Some(Type::Scalar(Some(ScalarType::Int))).is_subtype(&Some(Type::Matrix(Some(ScalarType::Bool), 3, 4))));

    assert!(Some(Type::Scalar(Some(ScalarType::Felt))).is_subtype(&None::<Type>));
    assert!(Some(Type::Scalar(Some(ScalarType::Felt))).is_subtype(&Some(Type::Scalar(None))));
    assert!(Some(Type::Scalar(Some(ScalarType::Felt))).is_subtype(&Some(Type::Scalar(Some(ScalarType::Int)))));
    assert!(Some(Type::Scalar(Some(ScalarType::Felt))).is_subtype(&Some(Type::Scalar(Some(ScalarType::Felt)))));
    assert!(!Some(Type::Scalar(Some(ScalarType::Felt))).is_subtype(&Some(Type::Scalar(Some(ScalarType::Bool)))));
    assert!(!Some(Type::Scalar(Some(ScalarType::Felt))).is_subtype(&Some(Type::Vector(None, 5))));
    assert!(!Some(Type::Scalar(Some(ScalarType::Felt))).is_subtype(&Some(Type::Vector(Some(ScalarType::Int), 5))));
    assert!(!Some(Type::Scalar(Some(ScalarType::Felt))).is_subtype(&Some(Type::Vector(Some(ScalarType::Felt), 5))));
    assert!(!Some(Type::Scalar(Some(ScalarType::Felt))).is_subtype(&Some(Type::Vector(Some(ScalarType::Bool), 5))));
    assert!(!Some(Type::Scalar(Some(ScalarType::Felt))).is_subtype(&Some(Type::Matrix(None, 3, 4))));
    assert!(!Some(Type::Scalar(Some(ScalarType::Felt))).is_subtype(&Some(Type::Matrix(Some(ScalarType::Int), 3, 4))));
    assert!(!Some(Type::Scalar(Some(ScalarType::Felt))).is_subtype(&Some(Type::Matrix(Some(ScalarType::Felt), 3, 4))));
    assert!(!Some(Type::Scalar(Some(ScalarType::Felt))).is_subtype(&Some(Type::Matrix(Some(ScalarType::Bool), 3, 4))));

    assert!(Some(Type::Scalar(Some(ScalarType::Bool))).is_subtype(&None::<Type>));
    assert!(Some(Type::Scalar(Some(ScalarType::Bool))).is_subtype(&Some(Type::Scalar(None))));
    assert!(Some(Type::Scalar(Some(ScalarType::Bool))).is_subtype(&Some(Type::Scalar(Some(ScalarType::Int)))));
    assert!(Some(Type::Scalar(Some(ScalarType::Bool))).is_subtype(&Some(Type::Scalar(Some(ScalarType::Felt)))));
    assert!(Some(Type::Scalar(Some(ScalarType::Bool))).is_subtype(&Some(Type::Scalar(Some(ScalarType::Bool)))));
    assert!(!Some(Type::Scalar(Some(ScalarType::Bool))).is_subtype(&Some(Type::Vector(None, 5))));
    assert!(!Some(Type::Scalar(Some(ScalarType::Bool))).is_subtype(&Some(Type::Vector(Some(ScalarType::Int), 5))));
    assert!(!Some(Type::Scalar(Some(ScalarType::Bool))).is_subtype(&Some(Type::Vector(Some(ScalarType::Felt), 5))));
    assert!(!Some(Type::Scalar(Some(ScalarType::Bool))).is_subtype(&Some(Type::Vector(Some(ScalarType::Bool), 5))));
    assert!(!Some(Type::Scalar(Some(ScalarType::Bool))).is_subtype(&Some(Type::Matrix(None, 3, 4))));
    assert!(!Some(Type::Scalar(Some(ScalarType::Bool))).is_subtype(&Some(Type::Matrix(Some(ScalarType::Int), 3, 4))));
    assert!(!Some(Type::Scalar(Some(ScalarType::Bool))).is_subtype(&Some(Type::Matrix(Some(ScalarType::Felt), 3, 4))));
    assert!(!Some(Type::Scalar(Some(ScalarType::Bool))).is_subtype(&Some(Type::Matrix(Some(ScalarType::Bool), 3, 4))));

    assert!(Some(Type::Vector(None, 5)).is_subtype(&None::<Type>));
    assert!(!Some(Type::Vector(None, 5)).is_subtype(&Some(Type::Scalar(None))));
    assert!(!Some(Type::Vector(None, 5)).is_subtype(&Some(Type::Scalar(Some(ScalarType::Int)))));
    assert!(!Some(Type::Vector(None, 5)).is_subtype(&Some(Type::Scalar(Some(ScalarType::Felt)))));
    assert!(!Some(Type::Vector(None, 5)).is_subtype(&Some(Type::Scalar(Some(ScalarType::Bool)))));
    assert!(Some(Type::Vector(None, 5)).is_subtype(&Some(Type::Vector(None, 5))));
    assert!(Some(Type::Vector(None, 5)).is_subtype(&Some(Type::Vector(Some(ScalarType::Int), 5))));
    assert!(Some(Type::Vector(None, 5)).is_subtype(&Some(Type::Vector(Some(ScalarType::Felt), 5))));
    assert!(Some(Type::Vector(None, 5)).is_subtype(&Some(Type::Vector(Some(ScalarType::Bool), 5))));
    assert!(!Some(Type::Vector(None, 5)).is_subtype(&Some(Type::Matrix(None, 3, 4))));
    assert!(!Some(Type::Vector(None, 5)).is_subtype(&Some(Type::Matrix(Some(ScalarType::Int), 3, 4))));
    assert!(!Some(Type::Vector(None, 5)).is_subtype(&Some(Type::Matrix(Some(ScalarType::Felt), 3, 4))));
    assert!(!Some(Type::Vector(None, 5)).is_subtype(&Some(Type::Matrix(Some(ScalarType::Bool), 3, 4))));

    assert!(Some(Type::Vector(Some(ScalarType::Int), 5)).is_subtype(&None::<Type>));
    assert!(!Some(Type::Vector(Some(ScalarType::Int), 5)).is_subtype(&Some(Type::Scalar(None))));
    assert!(!Some(Type::Vector(Some(ScalarType::Int), 5)).is_subtype(&Some(Type::Scalar(Some(ScalarType::Int)))));
    assert!(!Some(Type::Vector(Some(ScalarType::Int), 5)).is_subtype(&Some(Type::Scalar(Some(ScalarType::Felt)))));
    assert!(!Some(Type::Vector(Some(ScalarType::Int), 5)).is_subtype(&Some(Type::Scalar(Some(ScalarType::Bool)))));
    assert!(Some(Type::Vector(Some(ScalarType::Int), 5)).is_subtype(&Some(Type::Vector(None, 5))));
    assert!(Some(Type::Vector(Some(ScalarType::Int), 5)).is_subtype(&Some(Type::Vector(Some(ScalarType::Int), 5))));
    assert!(!Some(Type::Vector(Some(ScalarType::Int), 5)).is_subtype(&Some(Type::Vector(Some(ScalarType::Felt), 5))));
    assert!(!Some(Type::Vector(Some(ScalarType::Int), 5)).is_subtype(&Some(Type::Vector(Some(ScalarType::Bool), 5))));
    assert!(!Some(Type::Vector(Some(ScalarType::Int), 5)).is_subtype(&Some(Type::Matrix(None, 3, 4))));
    assert!(!Some(Type::Vector(Some(ScalarType::Int), 5)).is_subtype(&Some(Type::Matrix(Some(ScalarType::Int), 3, 4))));
    assert!(!Some(Type::Vector(Some(ScalarType::Int), 5)).is_subtype(&Some(Type::Matrix(Some(ScalarType::Felt), 3, 4))));
    assert!(!Some(Type::Vector(Some(ScalarType::Int), 5)).is_subtype(&Some(Type::Matrix(Some(ScalarType::Bool), 3, 4))));

    assert!(Some(Type::Vector(Some(ScalarType::Felt), 5)).is_subtype(&None::<Type>));
    assert!(!Some(Type::Vector(Some(ScalarType::Felt), 5)).is_subtype(&Some(Type::Scalar(None))));
    assert!(!Some(Type::Vector(Some(ScalarType::Felt), 5)).is_subtype(&Some(Type::Scalar(Some(ScalarType::Int)))));
    assert!(!Some(Type::Vector(Some(ScalarType::Felt), 5)).is_subtype(&Some(Type::Scalar(Some(ScalarType::Felt)))));
    assert!(!Some(Type::Vector(Some(ScalarType::Felt), 5)).is_subtype(&Some(Type::Scalar(Some(ScalarType::Bool)))));
    assert!(Some(Type::Vector(Some(ScalarType::Felt), 5)).is_subtype(&Some(Type::Vector(None, 5))));
    assert!(Some(Type::Vector(Some(ScalarType::Felt), 5)).is_subtype(&Some(Type::Vector(Some(ScalarType::Int), 5))));
    assert!(Some(Type::Vector(Some(ScalarType::Felt), 5)).is_subtype(&Some(Type::Vector(Some(ScalarType::Felt), 5))));
    assert!(!Some(Type::Vector(Some(ScalarType::Felt), 5)).is_subtype(&Some(Type::Vector(Some(ScalarType::Bool), 5))));
    assert!(!Some(Type::Vector(Some(ScalarType::Felt), 5)).is_subtype(&Some(Type::Matrix(None, 3, 4))));
    assert!(!Some(Type::Vector(Some(ScalarType::Felt), 5)).is_subtype(&Some(Type::Matrix(Some(ScalarType::Int), 3, 4))));
    assert!(!Some(Type::Vector(Some(ScalarType::Felt), 5)).is_subtype(&Some(Type::Matrix(Some(ScalarType::Felt), 3, 4))));
    assert!(!Some(Type::Vector(Some(ScalarType::Felt), 5)).is_subtype(&Some(Type::Matrix(Some(ScalarType::Bool), 3, 4))));

    assert!(Some(Type::Vector(Some(ScalarType::Bool), 5)).is_subtype(&None::<Type>));
    assert!(!Some(Type::Vector(Some(ScalarType::Bool), 5)).is_subtype(&Some(Type::Scalar(None))));
    assert!(!Some(Type::Vector(Some(ScalarType::Bool), 5)).is_subtype(&Some(Type::Scalar(Some(ScalarType::Int)))));
    assert!(!Some(Type::Vector(Some(ScalarType::Bool), 5)).is_subtype(&Some(Type::Scalar(Some(ScalarType::Felt)))));
    assert!(!Some(Type::Vector(Some(ScalarType::Bool), 5)).is_subtype(&Some(Type::Scalar(Some(ScalarType::Bool)))));
    assert!(Some(Type::Vector(Some(ScalarType::Bool), 5)).is_subtype(&Some(Type::Vector(None, 5))));
    assert!(Some(Type::Vector(Some(ScalarType::Bool), 5)).is_subtype(&Some(Type::Vector(Some(ScalarType::Int), 5))));
    assert!(Some(Type::Vector(Some(ScalarType::Bool), 5)).is_subtype(&Some(Type::Vector(Some(ScalarType::Felt), 5))));
    assert!(Some(Type::Vector(Some(ScalarType::Bool), 5)).is_subtype(&Some(Type::Vector(Some(ScalarType::Bool), 5))));
    assert!(!Some(Type::Vector(Some(ScalarType::Bool), 5)).is_subtype(&Some(Type::Matrix(None, 3, 4))));
    assert!(!Some(Type::Vector(Some(ScalarType::Bool), 5)).is_subtype(&Some(Type::Matrix(Some(ScalarType::Int), 3, 4))));
    assert!(!Some(Type::Vector(Some(ScalarType::Bool), 5)).is_subtype(&Some(Type::Matrix(Some(ScalarType::Felt), 3, 4))));
    assert!(!Some(Type::Vector(Some(ScalarType::Bool), 5)).is_subtype(&Some(Type::Matrix(Some(ScalarType::Bool), 3, 4))));

    assert!(Some(Type::Matrix(None, 3, 4)).is_subtype(&None::<Type>));
    assert!(!Some(Type::Matrix(None, 3, 4)).is_subtype(&Some(Type::Scalar(None))));
    assert!(!Some(Type::Matrix(None, 3, 4)).is_subtype(&Some(Type::Scalar(Some(ScalarType::Int)))));
    assert!(!Some(Type::Matrix(None, 3, 4)).is_subtype(&Some(Type::Scalar(Some(ScalarType::Felt)))));
    assert!(!Some(Type::Matrix(None, 3, 4)).is_subtype(&Some(Type::Scalar(Some(ScalarType::Bool)))));
    assert!(!Some(Type::Matrix(None, 3, 4)).is_subtype(&Some(Type::Vector(None, 5))));
    assert!(!Some(Type::Matrix(None, 3, 4)).is_subtype(&Some(Type::Vector(Some(ScalarType::Int), 5))));
    assert!(!Some(Type::Matrix(None, 3, 4)).is_subtype(&Some(Type::Vector(Some(ScalarType::Felt), 5))));
    assert!(!Some(Type::Matrix(None, 3, 4)).is_subtype(&Some(Type::Vector(Some(ScalarType::Bool), 5))));
    assert!(Some(Type::Matrix(None, 3, 4)).is_subtype(&Some(Type::Matrix(None, 3, 4))));
    assert!(Some(Type::Matrix(None, 3, 4)).is_subtype(&Some(Type::Matrix(Some(ScalarType::Int), 3, 4))));
    assert!(Some(Type::Matrix(None, 3, 4)).is_subtype(&Some(Type::Matrix(Some(ScalarType::Felt), 3, 4))));
    assert!(Some(Type::Matrix(None, 3, 4)).is_subtype(&Some(Type::Matrix(Some(ScalarType::Bool), 3, 4))));

    assert!(Some(Type::Matrix(Some(ScalarType::Int), 3, 4)).is_subtype(&None::<Type>));
    assert!(!Some(Type::Matrix(Some(ScalarType::Int), 3, 4)).is_subtype(&Some(Type::Scalar(None))));
    assert!(!Some(Type::Matrix(Some(ScalarType::Int), 3, 4)).is_subtype(&Some(Type::Scalar(Some(ScalarType::Int)))));
    assert!(!Some(Type::Matrix(Some(ScalarType::Int), 3, 4)).is_subtype(&Some(Type::Scalar(Some(ScalarType::Felt)))));
    assert!(!Some(Type::Matrix(Some(ScalarType::Int), 3, 4)).is_subtype(&Some(Type::Scalar(Some(ScalarType::Bool)))));
    assert!(!Some(Type::Matrix(Some(ScalarType::Int), 3, 4)).is_subtype(&Some(Type::Vector(None, 5))));
    assert!(!Some(Type::Matrix(Some(ScalarType::Int), 3, 4)).is_subtype(&Some(Type::Vector(Some(ScalarType::Int), 5))));
    assert!(!Some(Type::Matrix(Some(ScalarType::Int), 3, 4)).is_subtype(&Some(Type::Vector(Some(ScalarType::Felt), 5))));
    assert!(!Some(Type::Matrix(Some(ScalarType::Int), 3, 4)).is_subtype(&Some(Type::Vector(Some(ScalarType::Bool), 5))));
    assert!(Some(Type::Matrix(Some(ScalarType::Int), 3, 4)).is_subtype(&Some(Type::Matrix(None, 3, 4))));
    assert!(Some(Type::Matrix(Some(ScalarType::Int), 3, 4)).is_subtype(&Some(Type::Matrix(Some(ScalarType::Int), 3, 4))));
    assert!(!Some(Type::Matrix(Some(ScalarType::Int), 3, 4)).is_subtype(&Some(Type::Matrix(Some(ScalarType::Felt), 3, 4))));
    assert!(!Some(Type::Matrix(Some(ScalarType::Int), 3, 4)).is_subtype(&Some(Type::Matrix(Some(ScalarType::Bool), 3, 4))));

    assert!(Some(Type::Matrix(Some(ScalarType::Felt), 3, 4)).is_subtype(&None::<Type>));
    assert!(!Some(Type::Matrix(Some(ScalarType::Felt), 3, 4)).is_subtype(&Some(Type::Scalar(None))));
    assert!(!Some(Type::Matrix(Some(ScalarType::Felt), 3, 4)).is_subtype(&Some(Type::Scalar(Some(ScalarType::Int)))));
    assert!(!Some(Type::Matrix(Some(ScalarType::Felt), 3, 4)).is_subtype(&Some(Type::Scalar(Some(ScalarType::Felt)))));
    assert!(!Some(Type::Matrix(Some(ScalarType::Felt), 3, 4)).is_subtype(&Some(Type::Scalar(Some(ScalarType::Bool)))));
    assert!(!Some(Type::Matrix(Some(ScalarType::Felt), 3, 4)).is_subtype(&Some(Type::Vector(None, 5))));
    assert!(!Some(Type::Matrix(Some(ScalarType::Felt), 3, 4)).is_subtype(&Some(Type::Vector(Some(ScalarType::Int), 5))));
    assert!(!Some(Type::Matrix(Some(ScalarType::Felt), 3, 4)).is_subtype(&Some(Type::Vector(Some(ScalarType::Felt), 5))));
    assert!(!Some(Type::Matrix(Some(ScalarType::Felt), 3, 4)).is_subtype(&Some(Type::Vector(Some(ScalarType::Bool), 5))));
    assert!(Some(Type::Matrix(Some(ScalarType::Felt), 3, 4)).is_subtype(&Some(Type::Matrix(None, 3, 4))));
    assert!(Some(Type::Matrix(Some(ScalarType::Felt), 3, 4)).is_subtype(&Some(Type::Matrix(Some(ScalarType::Int), 3, 4))));
    assert!(Some(Type::Matrix(Some(ScalarType::Felt), 3, 4)).is_subtype(&Some(Type::Matrix(Some(ScalarType::Felt), 3, 4))));
    assert!(!Some(Type::Matrix(Some(ScalarType::Felt), 3, 4)).is_subtype(&Some(Type::Matrix(Some(ScalarType::Bool), 3, 4))));

    assert!(Some(Type::Matrix(Some(ScalarType::Bool), 3, 4)).is_subtype(&None::<Type>));
    assert!(!Some(Type::Matrix(Some(ScalarType::Bool), 3, 4)).is_subtype(&Some(Type::Scalar(None))));
    assert!(!Some(Type::Matrix(Some(ScalarType::Bool), 3, 4)).is_subtype(&Some(Type::Scalar(Some(ScalarType::Int)))));
    assert!(!Some(Type::Matrix(Some(ScalarType::Bool), 3, 4)).is_subtype(&Some(Type::Scalar(Some(ScalarType::Felt)))));
    assert!(!Some(Type::Matrix(Some(ScalarType::Bool), 3, 4)).is_subtype(&Some(Type::Scalar(Some(ScalarType::Bool)))));
    assert!(!Some(Type::Matrix(Some(ScalarType::Bool), 3, 4)).is_subtype(&Some(Type::Vector(None, 5))));
    assert!(!Some(Type::Matrix(Some(ScalarType::Bool), 3, 4)).is_subtype(&Some(Type::Vector(Some(ScalarType::Int), 5))));
    assert!(!Some(Type::Matrix(Some(ScalarType::Bool), 3, 4)).is_subtype(&Some(Type::Vector(Some(ScalarType::Felt), 5))));
    assert!(!Some(Type::Matrix(Some(ScalarType::Bool), 3, 4)).is_subtype(&Some(Type::Vector(Some(ScalarType::Bool), 5))));
    assert!(Some(Type::Matrix(Some(ScalarType::Bool), 3, 4)).is_subtype(&Some(Type::Matrix(None, 3, 4))));
    assert!(Some(Type::Matrix(Some(ScalarType::Bool), 3, 4)).is_subtype(&Some(Type::Matrix(Some(ScalarType::Int), 3, 4))));
    assert!(Some(Type::Matrix(Some(ScalarType::Bool), 3, 4)).is_subtype(&Some(Type::Matrix(Some(ScalarType::Felt), 3, 4))));
    assert!(Some(Type::Matrix(Some(ScalarType::Bool), 3, 4)).is_subtype(&Some(Type::Matrix(Some(ScalarType::Bool), 3, 4))));
}

#[test]
fn test_typing_compatible() {
    assert!(None::<Type>.is_compatible(&None::<Type>));
    assert!(None::<Type>.is_compatible(&Some(Type::Scalar(None))));
    assert!(None::<Type>.is_compatible(&Some(Type::Scalar(Some(ScalarType::Int)))));
    assert!(None::<Type>.is_compatible(&Some(Type::Scalar(Some(ScalarType::Felt)))));
    assert!(None::<Type>.is_compatible(&Some(Type::Scalar(Some(ScalarType::Bool)))));
    assert!(None::<Type>.is_compatible(&Some(Type::Vector(None, 5))));
    assert!(None::<Type>.is_compatible(&Some(Type::Vector(Some(ScalarType::Int), 5))));
    assert!(None::<Type>.is_compatible(&Some(Type::Vector(Some(ScalarType::Felt), 5))));
    assert!(None::<Type>.is_compatible(&Some(Type::Vector(Some(ScalarType::Bool), 5))));
    assert!(None::<Type>.is_compatible(&Some(Type::Matrix(None, 3, 4))));
    assert!(None::<Type>.is_compatible(&Some(Type::Matrix(Some(ScalarType::Int), 3, 4))));
    assert!(None::<Type>.is_compatible(&Some(Type::Matrix(Some(ScalarType::Felt), 3, 4))));
    assert!(None::<Type>.is_compatible(&Some(Type::Matrix(Some(ScalarType::Bool), 3, 4))));

    assert!(Some(Type::Scalar(None)).is_compatible(&None::<Type>));
    assert!(Some(Type::Scalar(None)).is_compatible(&Some(Type::Scalar(None))));
    assert!(Some(Type::Scalar(None)).is_compatible(&Some(Type::Scalar(Some(ScalarType::Int)))));
    assert!(Some(Type::Scalar(None)).is_compatible(&Some(Type::Scalar(Some(ScalarType::Felt)))));
    assert!(Some(Type::Scalar(None)).is_compatible(&Some(Type::Scalar(Some(ScalarType::Bool)))));
    assert!(!Some(Type::Scalar(None)).is_compatible(&Some(Type::Vector(None, 5))));
    assert!(!Some(Type::Scalar(None)).is_compatible(&Some(Type::Vector(Some(ScalarType::Int), 5))));
    assert!(!Some(Type::Scalar(None)).is_compatible(&Some(Type::Vector(Some(ScalarType::Felt), 5))));
    assert!(!Some(Type::Scalar(None)).is_compatible(&Some(Type::Vector(Some(ScalarType::Bool), 5))));
    assert!(!Some(Type::Scalar(None)).is_compatible(&Some(Type::Matrix(None, 3, 4))));
    assert!(!Some(Type::Scalar(None)).is_compatible(&Some(Type::Matrix(Some(ScalarType::Int), 3, 4))));
    assert!(!Some(Type::Scalar(None)).is_compatible(&Some(Type::Matrix(Some(ScalarType::Felt), 3, 4))));
    assert!(!Some(Type::Scalar(None)).is_compatible(&Some(Type::Matrix(Some(ScalarType::Bool), 3, 4))));

    assert!(Some(Type::Scalar(Some(ScalarType::Int))).is_compatible(&None::<Type>));
    assert!(Some(Type::Scalar(Some(ScalarType::Int))).is_compatible(&Some(Type::Scalar(None))));
    assert!(Some(Type::Scalar(Some(ScalarType::Int))).is_compatible(&Some(Type::Scalar(Some(ScalarType::Int)))));
    assert!(!Some(Type::Scalar(Some(ScalarType::Int))).is_compatible(&Some(Type::Scalar(Some(ScalarType::Felt)))));
    assert!(!Some(Type::Scalar(Some(ScalarType::Int))).is_compatible(&Some(Type::Scalar(Some(ScalarType::Bool)))));
    assert!(!Some(Type::Scalar(Some(ScalarType::Int))).is_compatible(&Some(Type::Vector(None, 5))));
    assert!(!Some(Type::Scalar(Some(ScalarType::Int))).is_compatible(&Some(Type::Vector(Some(ScalarType::Int), 5))));
    assert!(!Some(Type::Scalar(Some(ScalarType::Int))).is_compatible(&Some(Type::Vector(Some(ScalarType::Felt), 5))));
    assert!(!Some(Type::Scalar(Some(ScalarType::Int))).is_compatible(&Some(Type::Vector(Some(ScalarType::Bool), 5))));
    assert!(!Some(Type::Scalar(Some(ScalarType::Int))).is_compatible(&Some(Type::Matrix(None, 3, 4))));
    assert!(!Some(Type::Scalar(Some(ScalarType::Int))).is_compatible(&Some(Type::Matrix(Some(ScalarType::Int), 3, 4))));
    assert!(!Some(Type::Scalar(Some(ScalarType::Int))).is_compatible(&Some(Type::Matrix(Some(ScalarType::Felt), 3, 4))));
    assert!(!Some(Type::Scalar(Some(ScalarType::Int))).is_compatible(&Some(Type::Matrix(Some(ScalarType::Bool), 3, 4))));

    assert!(Some(Type::Scalar(Some(ScalarType::Felt))).is_compatible(&None::<Type>));
    assert!(Some(Type::Scalar(Some(ScalarType::Felt))).is_compatible(&Some(Type::Scalar(None))));
    assert!(Some(Type::Scalar(Some(ScalarType::Felt))).is_compatible(&Some(Type::Scalar(Some(ScalarType::Int)))));
    assert!(Some(Type::Scalar(Some(ScalarType::Felt))).is_compatible(&Some(Type::Scalar(Some(ScalarType::Felt)))));
    assert!(Some(Type::Scalar(Some(ScalarType::Felt))).is_compatible(&Some(Type::Scalar(Some(ScalarType::Bool)))));
    assert!(!Some(Type::Scalar(Some(ScalarType::Felt))).is_compatible(&Some(Type::Vector(None, 5))));
    assert!(!Some(Type::Scalar(Some(ScalarType::Felt))).is_compatible(&Some(Type::Vector(Some(ScalarType::Int), 5))));
    assert!(!Some(Type::Scalar(Some(ScalarType::Felt))).is_compatible(&Some(Type::Vector(Some(ScalarType::Felt), 5))));
    assert!(!Some(Type::Scalar(Some(ScalarType::Felt))).is_compatible(&Some(Type::Vector(Some(ScalarType::Bool), 5))));
    assert!(!Some(Type::Scalar(Some(ScalarType::Felt))).is_compatible(&Some(Type::Matrix(None, 3, 4))));
    assert!(!Some(Type::Scalar(Some(ScalarType::Felt))).is_compatible(&Some(Type::Matrix(Some(ScalarType::Int), 3, 4))));
    assert!(!Some(Type::Scalar(Some(ScalarType::Felt))).is_compatible(&Some(Type::Matrix(Some(ScalarType::Felt), 3, 4))));
    assert!(!Some(Type::Scalar(Some(ScalarType::Felt))).is_compatible(&Some(Type::Matrix(Some(ScalarType::Bool), 3, 4))));

    assert!(Some(Type::Scalar(Some(ScalarType::Bool))).is_compatible(&None::<Type>));
    assert!(Some(Type::Scalar(Some(ScalarType::Bool))).is_compatible(&Some(Type::Scalar(None))));
    assert!(Some(Type::Scalar(Some(ScalarType::Bool))).is_compatible(&Some(Type::Scalar(Some(ScalarType::Int)))));
    assert!(Some(Type::Scalar(Some(ScalarType::Bool))).is_compatible(&Some(Type::Scalar(Some(ScalarType::Felt)))));
    assert!(Some(Type::Scalar(Some(ScalarType::Bool))).is_compatible(&Some(Type::Scalar(Some(ScalarType::Bool)))));
    assert!(!Some(Type::Scalar(Some(ScalarType::Bool))).is_compatible(&Some(Type::Vector(None, 5))));
    assert!(!Some(Type::Scalar(Some(ScalarType::Bool))).is_compatible(&Some(Type::Vector(Some(ScalarType::Int), 5))));
    assert!(!Some(Type::Scalar(Some(ScalarType::Bool))).is_compatible(&Some(Type::Vector(Some(ScalarType::Felt), 5))));
    assert!(!Some(Type::Scalar(Some(ScalarType::Bool))).is_compatible(&Some(Type::Vector(Some(ScalarType::Bool), 5))));
    assert!(!Some(Type::Scalar(Some(ScalarType::Bool))).is_compatible(&Some(Type::Matrix(None, 3, 4))));
    assert!(!Some(Type::Scalar(Some(ScalarType::Bool))).is_compatible(&Some(Type::Matrix(Some(ScalarType::Int), 3, 4))));
    assert!(!Some(Type::Scalar(Some(ScalarType::Bool))).is_compatible(&Some(Type::Matrix(Some(ScalarType::Felt), 3, 4))));
    assert!(!Some(Type::Scalar(Some(ScalarType::Bool))).is_compatible(&Some(Type::Matrix(Some(ScalarType::Bool), 3, 4))));

    assert!(Some(Type::Vector(None, 5)).is_compatible(&None::<Type>));
    assert!(!Some(Type::Vector(None, 5)).is_compatible(&Some(Type::Scalar(None))));
    assert!(!Some(Type::Vector(None, 5)).is_compatible(&Some(Type::Scalar(Some(ScalarType::Int)))));
    assert!(!Some(Type::Vector(None, 5)).is_compatible(&Some(Type::Scalar(Some(ScalarType::Felt)))));
    assert!(!Some(Type::Vector(None, 5)).is_compatible(&Some(Type::Scalar(Some(ScalarType::Bool)))));
    assert!(Some(Type::Vector(None, 5)).is_compatible(&Some(Type::Vector(None, 5))));
    assert!(Some(Type::Vector(None, 5)).is_compatible(&Some(Type::Vector(Some(ScalarType::Int), 5))));
    assert!(Some(Type::Vector(None, 5)).is_compatible(&Some(Type::Vector(Some(ScalarType::Felt), 5))));
    assert!(Some(Type::Vector(None, 5)).is_compatible(&Some(Type::Vector(Some(ScalarType::Bool), 5))));
    assert!(!Some(Type::Vector(None, 5)).is_compatible(&Some(Type::Matrix(None, 3, 4))));
    assert!(!Some(Type::Vector(None, 5)).is_compatible(&Some(Type::Matrix(Some(ScalarType::Int), 3, 4))));
    assert!(!Some(Type::Vector(None, 5)).is_compatible(&Some(Type::Matrix(Some(ScalarType::Felt), 3, 4))));
    assert!(!Some(Type::Vector(None, 5)).is_compatible(&Some(Type::Matrix(Some(ScalarType::Bool), 3, 4))));

    assert!(Some(Type::Vector(Some(ScalarType::Int), 5)).is_compatible(&None::<Type>));
    assert!(!Some(Type::Vector(Some(ScalarType::Int), 5)).is_compatible(&Some(Type::Scalar(None))));
    assert!(!Some(Type::Vector(Some(ScalarType::Int), 5)).is_compatible(&Some(Type::Scalar(Some(ScalarType::Int)))));
    assert!(!Some(Type::Vector(Some(ScalarType::Int), 5)).is_compatible(&Some(Type::Scalar(Some(ScalarType::Felt)))));
    assert!(!Some(Type::Vector(Some(ScalarType::Int), 5)).is_compatible(&Some(Type::Scalar(Some(ScalarType::Bool)))));
    assert!(Some(Type::Vector(Some(ScalarType::Int), 5)).is_compatible(&Some(Type::Vector(None, 5))));
    assert!(Some(Type::Vector(Some(ScalarType::Int), 5)).is_compatible(&Some(Type::Vector(Some(ScalarType::Int), 5))));
    assert!(!Some(Type::Vector(Some(ScalarType::Int), 5)).is_compatible(&Some(Type::Vector(Some(ScalarType::Felt), 5))));
    assert!(!Some(Type::Vector(Some(ScalarType::Int), 5)).is_compatible(&Some(Type::Vector(Some(ScalarType::Bool), 5))));
    assert!(!Some(Type::Vector(Some(ScalarType::Int), 5)).is_compatible(&Some(Type::Matrix(None, 3, 4))));
    assert!(!Some(Type::Vector(Some(ScalarType::Int), 5)).is_compatible(&Some(Type::Matrix(Some(ScalarType::Int), 3, 4))));
    assert!(!Some(Type::Vector(Some(ScalarType::Int), 5)).is_compatible(&Some(Type::Matrix(Some(ScalarType::Felt), 3, 4))));
    assert!(!Some(Type::Vector(Some(ScalarType::Int), 5)).is_compatible(&Some(Type::Matrix(Some(ScalarType::Bool), 3, 4))));

    assert!(Some(Type::Vector(Some(ScalarType::Felt), 5)).is_compatible(&None::<Type>));
    assert!(!Some(Type::Vector(Some(ScalarType::Felt), 5)).is_compatible(&Some(Type::Scalar(None))));
    assert!(!Some(Type::Vector(Some(ScalarType::Felt), 5)).is_compatible(&Some(Type::Scalar(Some(ScalarType::Int)))));
    assert!(!Some(Type::Vector(Some(ScalarType::Felt), 5)).is_compatible(&Some(Type::Scalar(Some(ScalarType::Felt)))));
    assert!(!Some(Type::Vector(Some(ScalarType::Felt), 5)).is_compatible(&Some(Type::Scalar(Some(ScalarType::Bool)))));
    assert!(Some(Type::Vector(Some(ScalarType::Felt), 5)).is_compatible(&Some(Type::Vector(None, 5))));
    assert!(Some(Type::Vector(Some(ScalarType::Felt), 5)).is_compatible(&Some(Type::Vector(Some(ScalarType::Int), 5))));
    assert!(Some(Type::Vector(Some(ScalarType::Felt), 5)).is_compatible(&Some(Type::Vector(Some(ScalarType::Felt), 5))));
    assert!(Some(Type::Vector(Some(ScalarType::Felt), 5)).is_compatible(&Some(Type::Vector(Some(ScalarType::Bool), 5))));
    assert!(!Some(Type::Vector(Some(ScalarType::Felt), 5)).is_compatible(&Some(Type::Matrix(None, 3, 4))));
    assert!(!Some(Type::Vector(Some(ScalarType::Felt), 5)).is_compatible(&Some(Type::Matrix(Some(ScalarType::Int), 3, 4))));
    assert!(!Some(Type::Vector(Some(ScalarType::Felt), 5)).is_compatible(&Some(Type::Matrix(Some(ScalarType::Felt), 3, 4))));
    assert!(!Some(Type::Vector(Some(ScalarType::Felt), 5)).is_compatible(&Some(Type::Matrix(Some(ScalarType::Bool), 3, 4))));

    assert!(Some(Type::Vector(Some(ScalarType::Bool), 5)).is_compatible(&None::<Type>));
    assert!(!Some(Type::Vector(Some(ScalarType::Bool), 5)).is_compatible(&Some(Type::Scalar(None))));
    assert!(!Some(Type::Vector(Some(ScalarType::Bool), 5)).is_compatible(&Some(Type::Scalar(Some(ScalarType::Int)))));
    assert!(!Some(Type::Vector(Some(ScalarType::Bool), 5)).is_compatible(&Some(Type::Scalar(Some(ScalarType::Felt)))));
    assert!(!Some(Type::Vector(Some(ScalarType::Bool), 5)).is_compatible(&Some(Type::Scalar(Some(ScalarType::Bool)))));
    assert!(Some(Type::Vector(Some(ScalarType::Bool), 5)).is_compatible(&Some(Type::Vector(None, 5))));
    assert!(Some(Type::Vector(Some(ScalarType::Bool), 5)).is_compatible(&Some(Type::Vector(Some(ScalarType::Int), 5))));
    assert!(Some(Type::Vector(Some(ScalarType::Bool), 5)).is_compatible(&Some(Type::Vector(Some(ScalarType::Felt), 5))));
    assert!(Some(Type::Vector(Some(ScalarType::Bool), 5)).is_compatible(&Some(Type::Vector(Some(ScalarType::Bool), 5))));
    assert!(!Some(Type::Vector(Some(ScalarType::Bool), 5)).is_compatible(&Some(Type::Matrix(None, 3, 4))));
    assert!(!Some(Type::Vector(Some(ScalarType::Bool), 5)).is_compatible(&Some(Type::Matrix(Some(ScalarType::Int), 3, 4))));
    assert!(!Some(Type::Vector(Some(ScalarType::Bool), 5)).is_compatible(&Some(Type::Matrix(Some(ScalarType::Felt), 3, 4))));
    assert!(!Some(Type::Vector(Some(ScalarType::Bool), 5)).is_compatible(&Some(Type::Matrix(Some(ScalarType::Bool), 3, 4))));

    assert!(Some(Type::Matrix(None, 3, 4)).is_compatible(&None::<Type>));
    assert!(!Some(Type::Matrix(None, 3, 4)).is_compatible(&Some(Type::Scalar(None))));
    assert!(!Some(Type::Matrix(None, 3, 4)).is_compatible(&Some(Type::Scalar(Some(ScalarType::Int)))));
    assert!(!Some(Type::Matrix(None, 3, 4)).is_compatible(&Some(Type::Scalar(Some(ScalarType::Felt)))));
    assert!(!Some(Type::Matrix(None, 3, 4)).is_compatible(&Some(Type::Scalar(Some(ScalarType::Bool)))));
    assert!(!Some(Type::Matrix(None, 3, 4)).is_compatible(&Some(Type::Vector(None, 5))));
    assert!(!Some(Type::Matrix(None, 3, 4)).is_compatible(&Some(Type::Vector(Some(ScalarType::Int), 5))));
    assert!(!Some(Type::Matrix(None, 3, 4)).is_compatible(&Some(Type::Vector(Some(ScalarType::Felt), 5))));
    assert!(!Some(Type::Matrix(None, 3, 4)).is_compatible(&Some(Type::Vector(Some(ScalarType::Bool), 5))));
    assert!(Some(Type::Matrix(None, 3, 4)).is_compatible(&Some(Type::Matrix(None, 3, 4))));
    assert!(Some(Type::Matrix(None, 3, 4)).is_compatible(&Some(Type::Matrix(Some(ScalarType::Int), 3, 4))));
    assert!(Some(Type::Matrix(None, 3, 4)).is_compatible(&Some(Type::Matrix(Some(ScalarType::Felt), 3, 4))));
    assert!(Some(Type::Matrix(None, 3, 4)).is_compatible(&Some(Type::Matrix(Some(ScalarType::Bool), 3, 4))));

    assert!(Some(Type::Matrix(Some(ScalarType::Int), 3, 4)).is_compatible(&None::<Type>));
    assert!(!Some(Type::Matrix(Some(ScalarType::Int), 3, 4)).is_compatible(&Some(Type::Scalar(None))));
    assert!(!Some(Type::Matrix(Some(ScalarType::Int), 3, 4)).is_compatible(&Some(Type::Scalar(Some(ScalarType::Int)))));
    assert!(!Some(Type::Matrix(Some(ScalarType::Int), 3, 4)).is_compatible(&Some(Type::Scalar(Some(ScalarType::Felt)))));
    assert!(!Some(Type::Matrix(Some(ScalarType::Int), 3, 4)).is_compatible(&Some(Type::Scalar(Some(ScalarType::Bool)))));
    assert!(!Some(Type::Matrix(Some(ScalarType::Int), 3, 4)).is_compatible(&Some(Type::Vector(None, 5))));
    assert!(!Some(Type::Matrix(Some(ScalarType::Int), 3, 4)).is_compatible(&Some(Type::Vector(Some(ScalarType::Int), 5))));
    assert!(!Some(Type::Matrix(Some(ScalarType::Int), 3, 4)).is_compatible(&Some(Type::Vector(Some(ScalarType::Felt), 5))));
    assert!(!Some(Type::Matrix(Some(ScalarType::Int), 3, 4)).is_compatible(&Some(Type::Vector(Some(ScalarType::Bool), 5))));
    assert!(Some(Type::Matrix(Some(ScalarType::Int), 3, 4)).is_compatible(&Some(Type::Matrix(None, 3, 4))));
    assert!(Some(Type::Matrix(Some(ScalarType::Int), 3, 4)).is_compatible(&Some(Type::Matrix(Some(ScalarType::Int), 3, 4))));
    assert!(!Some(Type::Matrix(Some(ScalarType::Int), 3, 4)).is_compatible(&Some(Type::Matrix(Some(ScalarType::Felt), 3, 4))));
    assert!(!Some(Type::Matrix(Some(ScalarType::Int), 3, 4)).is_compatible(&Some(Type::Matrix(Some(ScalarType::Bool), 3, 4))));

    assert!(Some(Type::Matrix(Some(ScalarType::Felt), 3, 4)).is_compatible(&None::<Type>));
    assert!(!Some(Type::Matrix(Some(ScalarType::Felt), 3, 4)).is_compatible(&Some(Type::Scalar(None))));
    assert!(!Some(Type::Matrix(Some(ScalarType::Felt), 3, 4)).is_compatible(&Some(Type::Scalar(Some(ScalarType::Int)))));
    assert!(!Some(Type::Matrix(Some(ScalarType::Felt), 3, 4)).is_compatible(&Some(Type::Scalar(Some(ScalarType::Felt)))));
    assert!(!Some(Type::Matrix(Some(ScalarType::Felt), 3, 4)).is_compatible(&Some(Type::Scalar(Some(ScalarType::Bool)))));
    assert!(!Some(Type::Matrix(Some(ScalarType::Felt), 3, 4)).is_compatible(&Some(Type::Vector(None, 5))));
    assert!(!Some(Type::Matrix(Some(ScalarType::Felt), 3, 4)).is_compatible(&Some(Type::Vector(Some(ScalarType::Int), 5))));
    assert!(!Some(Type::Matrix(Some(ScalarType::Felt), 3, 4)).is_compatible(&Some(Type::Vector(Some(ScalarType::Felt), 5))));
    assert!(!Some(Type::Matrix(Some(ScalarType::Felt), 3, 4)).is_compatible(&Some(Type::Vector(Some(ScalarType::Bool), 5))));
    assert!(Some(Type::Matrix(Some(ScalarType::Felt), 3, 4)).is_compatible(&Some(Type::Matrix(None, 3, 4))));
    assert!(Some(Type::Matrix(Some(ScalarType::Felt), 3, 4)).is_compatible(&Some(Type::Matrix(Some(ScalarType::Int), 3, 4))));
    assert!(Some(Type::Matrix(Some(ScalarType::Felt), 3, 4)).is_compatible(&Some(Type::Matrix(Some(ScalarType::Felt), 3, 4))));
    assert!(Some(Type::Matrix(Some(ScalarType::Felt), 3, 4)).is_compatible(&Some(Type::Matrix(Some(ScalarType::Bool), 3, 4))));

    assert!(Some(Type::Matrix(Some(ScalarType::Bool), 3, 4)).is_compatible(&None::<Type>));
    assert!(!Some(Type::Matrix(Some(ScalarType::Bool), 3, 4)).is_compatible(&Some(Type::Scalar(None))));
    assert!(!Some(Type::Matrix(Some(ScalarType::Bool), 3, 4)).is_compatible(&Some(Type::Scalar(Some(ScalarType::Int)))));
    assert!(!Some(Type::Matrix(Some(ScalarType::Bool), 3, 4)).is_compatible(&Some(Type::Scalar(Some(ScalarType::Felt)))));
    assert!(!Some(Type::Matrix(Some(ScalarType::Bool), 3, 4)).is_compatible(&Some(Type::Scalar(Some(ScalarType::Bool)))));
    assert!(!Some(Type::Matrix(Some(ScalarType::Bool), 3, 4)).is_compatible(&Some(Type::Vector(None, 5))));
    assert!(!Some(Type::Matrix(Some(ScalarType::Bool), 3, 4)).is_compatible(&Some(Type::Vector(Some(ScalarType::Int), 5))));
    assert!(!Some(Type::Matrix(Some(ScalarType::Bool), 3, 4)).is_compatible(&Some(Type::Vector(Some(ScalarType::Felt), 5))));
    assert!(!Some(Type::Matrix(Some(ScalarType::Bool), 3, 4)).is_compatible(&Some(Type::Vector(Some(ScalarType::Bool), 5))));
    assert!(Some(Type::Matrix(Some(ScalarType::Bool), 3, 4)).is_compatible(&Some(Type::Matrix(None, 3, 4))));
    assert!(Some(Type::Matrix(Some(ScalarType::Bool), 3, 4)).is_compatible(&Some(Type::Matrix(Some(ScalarType::Int), 3, 4))));
    assert!(Some(Type::Matrix(Some(ScalarType::Bool), 3, 4)).is_compatible(&Some(Type::Matrix(Some(ScalarType::Felt), 3, 4))));
    assert!(Some(Type::Matrix(Some(ScalarType::Bool), 3, 4)).is_compatible(&Some(Type::Matrix(Some(ScalarType::Bool), 3, 4))));
}
