pub mod contract;
pub mod expression;
pub mod function;
pub mod meta;
pub mod node_id;
pub mod predicate;
pub mod statement;
pub mod types;
