//! A library for creating, reading and manipulating `ojo` repositories: line diffs, directed
//! graphs of lines ("graggles"), patches and the algorithms that connect them.

pub mod diff;

pub mod lis;
pub mod ids;
pub mod file;
pub mod change;
pub mod multimap;
pub mod graph;
pub mod dfs;
pub mod topo;
pub mod graggle;
pub mod apply;
pub mod reach;
pub mod partition;
pub mod components;
pub mod graggle_graph;
pub mod patch;
pub mod storage;
pub mod resolver;
pub mod chain_graggle;
pub mod filtered;
pub mod repo;
pub mod record;
