pub mod typing;
pub mod ast;
pub mod syntax;
pub mod mir;
pub mod symbol_table;
pub mod air;
pub mod ir3;
