//! A verified Boolean satisfiability solving engine.
//!
//! Clauses over non-zero integer literals are added one by one; `solve`
//! simplifies the clause database by subsumption, then searches for a
//! satisfying assignment by unit propagation and branching, subject to
//! optional decision and conflict limits.  Further inprocessing passes —
//! failed-literal probing, clause vivification and the pure-literal case of
//! bounded variable elimination — operate on whole formulas.  Every outcome
//! is proved correct against a sequence-based model of conjunctive normal
//! form: a satisfied session carries an assignment under which every clause
//! holds, and an unsatisfiable answer is given only when no assignment over
//! the reserved variables satisfies the clauses.

pub mod model;
pub mod search;
pub mod simplify;
mod solver;

pub use solver::Error;
pub use solver::Solver;
pub use solver::SolverConfig;
pub use solver::SolverState;
