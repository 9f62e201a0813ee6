//! Integer core of an ARC-task solver ablation suite: task grids, colour
//! bookkeeping, candidate enumeration, histogram enumeration, the counting
//! baselines and the command-line parsing, each with its contract.

pub mod task;
pub mod random;
pub mod ranking;
pub mod histograms;
pub mod baselines;
mod seq_facts;
pub mod cli;
pub mod stats;
