//! Equality saturation over arena-indexed terms: an e-graph with hash-consing
//! and congruence repair, a rule matcher with sequence wildcards, a round-based
//! rule scheduler and a cost-driven extractor.
pub mod term;
pub mod egraph;
pub mod pattern;
pub mod matcher;
pub mod rewrite;
pub mod scheduler;
pub mod extract;
pub mod seed;
pub mod text;
pub mod optimizer;
