//! Cost-based rewriting of SQL transformation graphs.

pub mod chain;
pub mod combo;
pub mod common;
pub mod counts;
pub mod cse;
pub mod cspe;
pub mod dag;
pub mod dup;
pub mod explain;
pub mod fused;
pub mod fusion;
pub mod fusion_explain;
pub mod fusion_pricing;
pub mod fusion_search;
pub mod hmp;
pub mod hmp_explain;
pub mod hmp_ranking;
pub mod landing;
pub mod leaf_ranking;
pub mod leafset;
pub mod learned;
pub mod levels;
pub mod logical;
pub mod makespan;
pub mod nodefusion;
pub mod operators;
pub mod order;
pub mod plan;
pub mod ranking;
pub mod report;
pub mod search;
pub mod signature;
pub mod sql;
pub mod step;
pub mod stored;
pub mod table;
pub mod text;
pub mod topo;
pub mod walk;
