pub mod constraints;
pub mod environment;
pub mod inference;
pub mod qualifiers;
pub mod smt;
pub mod solver;
pub mod templates;
