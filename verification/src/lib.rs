//! Encoding of combinatorial constraints into CNF clauses for SAT backends.
//!
//! A problem is described over variables of the user's own type. A [`Lit`]
//! gives such a variable a polarity, a [`VarType`] is either such a literal
//! or a signed solver variable without a name. The [`VarMap`] numbers the
//! variables in the order of their first use, and constraints are written
//! as clauses of these numbers to a [`Backend`]. An [`Encoder`] holds the
//! backend and the table for one session; where the backend is a
//! [`Solver`], it also reads a [`Model`] back.
//!
//! What a constraint writes is a function of the constraint and the table
//! it is encoded into, given by `Constraint::encoded`. The modules whose
//! names end in `_proofs` state what the clauses mean: which assignments of
//! the inputs extend to a model, and what a representative is worth.

pub mod backend;
pub mod cadical_backend;
pub mod circuit;
pub mod constraints;
pub mod counting;
pub mod encoder;
pub mod lit;
pub mod lit_order;
pub mod mock;
pub mod model;
pub mod semantics;
pub mod varmap;

pub use backend::{Backend, IncrementalSolver, SolveResult, Solver};
pub use cadical_backend::{CadicalEncoder, CadicalSolver};
pub use encoder::Encoder;
pub use lit::{Lit, VarType};
pub use mock::MockSolver;
pub use model::Model;
pub use varmap::{SatVar, VarMap};
