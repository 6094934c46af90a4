//! Bidirectional type inference for a small lambda calculus with
//! higher-rank polymorphism, together with a call-by-value evaluator.
//!
//! The checker threads an ordered context through the rules of subtyping,
//! instantiation, checking and inference. Each data type has a mathematical
//! model, and each function states in its contract what it gives, over the
//! models. The rules themselves are functions on the models (`rules`); the
//! checker (`checker`) computes them.
//!
//! What holds of the rules is proved beside them: solutions stay well
//! formed in what stands before them (`scoping`), contexts are only added
//! to (`extension`) and stay well formed (`validity`), the rules find the
//! elements that they rely on (`progress`, `synthesis`), they come to an
//! end (`termination`), their depth only decides whether they are given
//! up (`depth`), and the number of names made before only decides which
//! names they make (`renaming`, `determinism`).

pub mod checker;
pub mod closure;
pub mod context;
pub mod depth;
pub mod determinism;
pub mod error;
pub mod eval;
pub mod expr;
pub mod extension;
pub mod names;
pub mod parser;
pub mod progress;
pub mod renaming;
pub mod rules;
pub mod scoping;
pub mod synthesis;
pub mod termination;
pub mod token;
pub mod types;
pub mod validity;
