//! A DPLL satisfiability solver for propositional formulas in conjunctive
//! normal form: unit propagation, a branching heuristic and a recursive
//! split-and-backtrack search, each proved against its contract.

pub mod clausula;
pub mod propagacao;
pub mod heuristica;
pub mod busca;
pub mod dimacs;
