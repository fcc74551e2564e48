//! Round pairing.
//!
//! A round is modeled as a **minimum-weight perfect matching** over a complete
//! graph of the present units. Each candidate pairing is scored by a fixed set
//! of rules; a rule emits a small number of penalty *units*, and the edge
//! weight is `Σ multiplier[rule] · units`. The multipliers are **derived** from
//! each rule's worst-case units per round, so one unit of any rule always
//! outweighs the largest possible sum of every lower-priority rule combined —
//! the scalar weight is a correct lexicographic ordering by rule priority.
//!
//! [`model`] holds what the engine is given and the per-round context derived
//! from it, [`rules`] scores an edge and builds the multiplier ladder,
//! [`matching`] builds the cost matrix a matching solver is handed and reads
//! its answer back, and [`explain`] and [`counterfactual`] answer for the
//! result afterwards.

pub mod counterfactual;
pub mod explain;
pub mod matching;
pub mod model;
pub mod rules;
