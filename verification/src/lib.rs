//! A small Datalog engine.
//!
//! Ground facts and deduction rules are ingested from an abstract syntax
//! tree ([`ast`]); [`data_set::DataSet::run`] then saturates the fact base
//! to a least fixpoint by brute-force rule application, and
//! [`data_set::DataSet::query`] answers conjunctive queries against it.

pub mod ast;
pub mod binding;
pub mod counter;
pub mod data_set;
pub mod intern;
pub mod name_pool;
pub mod order;

pub use crate::ast::Program;
pub use crate::ast::Query;
pub use crate::data_set::DataSet;
pub use crate::data_set::answer::Answer;
