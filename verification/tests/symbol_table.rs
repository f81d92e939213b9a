use air_ir::air::{AirIR, Constraints, Declarations, Section};
use air_ir::ir3::call::Call;
use air_ir::ir3::{Builder, Child};
use air_ir::ir3::function::{Function, Parameter};
use air_ir::ir3::Parent;
use air_ir::mir::graph::{Graph, MirType};
use air_ir::symbol_table::{
    is_power_of_two, validate_cycles, validate_matrix_access, validate_vector_access, Constant, ConstantType,
    IdentifierType, MatrixAccess, PeriodicColumn, PublicInput, SemanticError, SymbolTable, TraceColumns,
    TraceCols, Variable, VariableType, VectorAccess,
};

fn cols(name: &str, size: u64) -> TraceCols {
    TraceCols { name: name.to_string(), size }
}

#[test]
fn trace_columns_follow_each_other() {
    let mut t = SymbolTable::new();
    t.insert_trace_columns(0, &vec![cols("a", 2), cols("b", 3)]).unwrap();
    assert_eq!(t.segment_widths, vec![5]);
    match t.get_type("b") {
        Ok(IdentifierType::TraceColumns(tc)) => {
            assert_eq!(*tc, TraceColumns { trace_segment: 0, offset: 2, size: 3 })
        }
        _ => panic!("expected trace columns"),
    }
    t.insert_trace_columns(2, &vec![cols("c", 1)]).unwrap();
    assert_eq!(t.segment_widths, vec![5, 0, 1]);
    assert_eq!(t.num_trace_segments(), 3);
}

#[test]
fn identifiers_are_unique() {
    let mut t = SymbolTable::new();
    t.insert_trace_columns(0, &vec![cols("a", 1)]).unwrap();
    let r = t.insert_public_inputs(&vec![PublicInput { name: "a".to_string(), size: 4 }]);
    assert!(matches!(r, Err(SemanticError::DuplicateIdentifier(n)) if n == "a"));
    assert!(matches!(t.get_type("zz"), Err(SemanticError::InvalidIdentifier(n)) if n == "zz"));
    let r = t.insert_trace_columns(1, &vec![cols("x", 1), cols("x", 1)]);
    assert!(matches!(r, Err(SemanticError::DuplicateIdentifier(n)) if n == "x"));
}

#[test]
fn periodic_columns_need_a_valid_cycle() {
    assert!(is_power_of_two(8));
    assert!(!is_power_of_two(6));
    assert!(!is_power_of_two(0));
    let bad = PeriodicColumn { name: "p".to_string(), values: vec![1, 0, 1] };
    assert!(matches!(validate_cycles(&bad), Err(SemanticError::InvalidPeriodicColumn(n, 3)) if n == "p"));
    let short = PeriodicColumn { name: "q".to_string(), values: vec![1] };
    assert!(validate_cycles(&short).is_err());
    let mut t = SymbolTable::new();
    let good = PeriodicColumn { name: "k".to_string(), values: vec![1, 0, 0, 0] };
    t.insert_periodic_columns(&vec![good]).unwrap();
    assert_eq!(t.periodic_columns, vec![vec![1, 0, 0, 0]]);
    assert!(matches!(t.get_type("k"), Ok(IdentifierType::PeriodicColumn(0, 4))));
    let r = t.insert_periodic_columns(&vec![bad]);
    assert!(matches!(r, Err(SemanticError::InvalidPeriodicColumn(_, 3))));
    assert!(t.get_type("p").is_err());
    let more = vec![
        PeriodicColumn { name: "m".to_string(), values: vec![0, 1] },
        PeriodicColumn { name: "n".to_string(), values: vec![1, 1, 1, 1, 1, 1, 1, 1] },
    ];
    t.insert_periodic_columns(&more).unwrap();
    assert!(matches!(t.get_type("m"), Ok(IdentifierType::PeriodicColumn(1, 2))));
    assert!(matches!(t.get_type("n"), Ok(IdentifierType::PeriodicColumn(2, 8))));
    assert_eq!(t.periodic_columns.len(), 3);
}

#[test]
fn vector_accesses_are_checked() {
    let mut t = SymbolTable::new();
    t.insert_public_inputs(&vec![PublicInput { name: "stack".to_string(), size: 4 }]).unwrap();
    assert_eq!(t.public_inputs, vec![("stack".to_string(), 4)]);
    let ok = VectorAccess { name: "stack".to_string(), idx: 3 };
    assert!(matches!(t.access_vector_element(&ok), Ok(IdentifierType::PublicInput(4))));
    let out = VectorAccess { name: "stack".to_string(), idx: 4 };
    assert!(matches!(t.access_vector_element(&out), Err(SemanticError::PublicInputsOutOfBounds(_, 4, 4))));
    let constant = Constant { name: "v".to_string(), value: ConstantType::Vector(vec![1, 2]) };
    t.insert_constant(&constant).unwrap();
    let beyond = VectorAccess { name: "v".to_string(), idx: 2 };
    assert!(matches!(t.access_vector_element(&beyond), Err(SemanticError::VectorAccessOutOfBounds(_, 2, 2))));
    let scalar = Constant { name: "s".to_string(), value: ConstantType::Scalar(5) };
    t.insert_constant(&scalar).unwrap();
    let wrong = VectorAccess { name: "s".to_string(), idx: 0 };
    assert!(matches!(t.access_vector_element(&wrong), Err(SemanticError::InvalidVectorAccess(_))));
    assert!(validate_vector_access(&ok, 4).is_ok());
    assert!(validate_vector_access(&out, 4).is_err());
}

#[test]
fn matrix_constants_and_accesses() {
    let mut t = SymbolTable::new();
    let ragged = Constant { name: "r".to_string(), value: ConstantType::Matrix(vec![vec![1, 2], vec![3]]) };
    assert!(matches!(t.insert_constant(&ragged), Err(SemanticError::InvalidConstant(n)) if n == "r"));
    let m = Constant { name: "m".to_string(), value: ConstantType::Matrix(vec![vec![1, 2], vec![3, 4]]) };
    t.insert_constant(&m).unwrap();
    assert_eq!(t.constants.len(), 1);
    let ok = MatrixAccess { name: "m".to_string(), row_idx: 1, col_idx: 1 };
    assert!(t.access_matrix_element(&ok).is_ok());
    let out = MatrixAccess { name: "m".to_string(), row_idx: 2, col_idx: 0 };
    assert!(matches!(
        t.access_matrix_element(&out),
        Err(SemanticError::MatrixAccessOutOfBounds(_, 2, 0, 2, 2))
    ));
    let var = Variable { name: "w".to_string(), value: VariableType::Vector(3) };
    t.insert_integrity_variable(&var).unwrap();
    let not_matrix = MatrixAccess { name: "w".to_string(), row_idx: 0, col_idx: 0 };
    assert!(matches!(t.access_matrix_element(&not_matrix), Err(SemanticError::InvalidMatrixAccess(_))));
    assert!(validate_matrix_access(&ok, 2, 2).is_ok());
    assert!(validate_matrix_access(&ok, 2, 1).is_err());
}

#[test]
fn air_accessors() {
    let mut t = SymbolTable::new();
    t.insert_trace_columns(0, &vec![cols("a", 2)]).unwrap();
    t.insert_public_inputs(&vec![PublicInput { name: "inputs".to_string(), size: 2 }]).unwrap();
    let declarations = Declarations::from_symbol_table(t);
    let constraints = Constraints {
        boundary_constraints: vec![vec![0, 1], vec![]],
        validity_constraints: vec![vec![2], vec![]],
        transition_constraints: vec![vec![3, 4], vec![5]],
        graph: Graph::new(),
    };
    let air = AirIR::from_parts("example".to_string(), declarations, constraints);
    assert_eq!(air.air_name(), "example");
    assert_eq!(air.trace_segment_widths(), &[2]);
    assert_eq!(air.public_inputs().len(), 1);
    assert_eq!(air.periodic_columns().len(), 0);
    assert_eq!(air.constants().len(), 0);
    assert_eq!(air.num_boundary_constraints(0), 2);
    assert_eq!(air.num_boundary_constraints(1), 0);
    assert_eq!(air.boundary_constraints(0), &[0, 1]);
    assert_eq!(air.validity_constraints(0), &[2]);
    assert!(air.validity_constraints(1).is_empty());
    assert_eq!(air.transition_constraints(0), &[3, 4]);
    assert_eq!(air.transition_constraints(1), &[5]);
    assert_eq!(air.constraint_graph().nodes.len(), 0);
}

#[test]
fn removing_a_child_keeps_the_others() {
    let mut f = Function::new(vec![Parameter::new(0)], Parameter::new(1), vec![3, 5, 3, 7]);
    f.remove_child(3);
    assert_eq!(f.children(), vec![5, 7]);
    let typed = air_ir::ir3::roots::Parameter::new(2, MirType::Vector(4));
    assert_eq!(typed.position, 2);
    assert_eq!(typed.ty, MirType::Vector(4));
}

fn no_constraints() -> Constraints {
    Constraints {
        boundary_constraints: vec![],
        validity_constraints: vec![],
        transition_constraints: vec![],
        graph: Graph::new(),
    }
}

#[test]
fn an_air_takes_its_name_from_the_last_definition() {
    let air = AirIR::new(&vec![], no_constraints()).unwrap();
    assert_eq!(air.air_name(), "CustomAir");
    let sections = vec![
        Section::AirDef("first".to_string()),
        Section::Trace(vec![cols("a", 2)], vec![cols("b", 1)]),
        Section::PublicInputs(vec![PublicInput { name: "stack".to_string(), size: 4 }]),
        Section::PeriodicColumns(vec![PeriodicColumn { name: "k".to_string(), values: vec![1, 0] }]),
        Section::Constant(Constant { name: "c".to_string(), value: ConstantType::Scalar(3) }),
        Section::AirDef("second".to_string()),
        Section::Constraints,
    ];
    let air = AirIR::new(&sections, no_constraints()).unwrap();
    assert_eq!(air.air_name(), "second");
    assert_eq!(air.trace_segment_widths(), &[2u16, 1u16][..]);
    assert_eq!(air.public_inputs(), &[("stack".to_string(), 4usize)][..]);
    assert_eq!(air.periodic_columns(), &[vec![1u64, 0u64]][..]);
    assert_eq!(air.constants().len(), 1);
    assert_eq!(air.constants()[0].name, "c");
}

#[test]
fn an_air_whose_names_clash_is_an_error() {
    let sections = vec![
        Section::Trace(vec![cols("a", 1)], vec![]),
        Section::PublicInputs(vec![PublicInput { name: "a".to_string(), size: 4 }]),
    ];
    assert!(matches!(
        AirIR::new(&sections, no_constraints()),
        Err(SemanticError::DuplicateIdentifier(n)) if n == "a"
    ));
}

#[test]
fn a_call_is_built_with_one_argument_per_parameter() {
    let call = Call::builder().parent(7).function(2, 2).argument(10).argument(11).build();
    assert_eq!(call.function, 2);
    assert_eq!(call.arguments, vec![10, 11]);
    assert_eq!(call.get_parent(), Some(7));
    let mut edited = call.edit().function(3, 3).argument(12).build();
    assert_eq!(edited.function, 3);
    assert_eq!(edited.children(), vec![10, 11, 12]);
    edited.set_parent(1);
    assert_eq!(edited.get_parent(), Some(1));
}
