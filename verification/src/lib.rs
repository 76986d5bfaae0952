pub mod ast;
pub mod errors;
pub mod ir;
pub mod names;
pub mod refinements;
pub mod resolve;
pub mod storage;
pub mod symbols;
pub mod typechecker;
