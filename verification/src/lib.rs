//! Core of an IC3 / PDR model checker for safety properties of
//! finite-state transition systems given as and-inverter graphs.
//!
//! The crate holds the verified heart of the checker: the literal,
//! cube and clause algebra, the and-inverter graph with its CNF
//! encodings, the transition model, the frame stack with
//! subsumption-aware insertion, the proof-obligation queue, and the
//! decision logic of the blocking, generalization and propagation
//! loops. The SAT back end is an external collaborator: every answer
//! it gives enters through a plain value, and the functions that
//! consume those answers are verified for every possible answer.

pub mod aig;
pub mod aig_cnf;
pub mod aig_logic;
pub mod analysis;
pub mod cube;
pub mod engine;
pub mod frames;
pub mod lits;
pub mod mic;
pub mod model;
pub mod obligation;
pub mod stats;
pub mod ternary;

pub use aig::{Aig, AigEdge, AigLatch, AigNode, AigNodeType};
pub use aig_logic::{AigClause, AigCnf, AigCube, AigDnf};
pub use cube::{Clause, Cnf, Cube, Dnf};
pub use engine::{Ic3, Ic3Solver};
pub use frames::Frames;
pub use lits::{Lit, Var};
pub use model::Model;
pub use obligation::{ProofObligation, ProofObligationQueue};
pub use stats::{Case, Statistic, SuccessRate};
pub use ternary::TernaryValue;
