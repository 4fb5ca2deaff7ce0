//! Resumable network topology survey: sampling of address ranges, a done-set of
//! traced targets and a weighted graph of hop adjacencies.
pub mod addr;
pub mod done;
pub mod graph;
pub mod probe;
pub mod sample;
pub mod store;
