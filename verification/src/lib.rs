//! A DPLL satisfiability solver for formulas in conjunctive normal form,
//! built on a two-watched-literals propagation index.

pub mod assignment;
pub mod cnf;
pub mod input;
pub mod satsolve;
pub mod watchedliterals;

pub use crate::cnf::{Clause, Cnf, LiteralTpl};
pub use crate::satsolve::{is_satisfiable, Stats};
