//! A compiler from quantum circuits to fault-tolerant code-surgery programs.
//!
//! Every algorithm of the compiler lives in this crate and carries a contract;
//! reading files, talking to solvers and to the command line is left to the
//! program built on top of it.

pub mod arch;
pub mod best_partition;
pub mod best_solution;
pub mod bridge;
pub mod cellulation;
pub mod circuit;

pub mod circuit_to_checks;
pub mod clifford;
pub mod coloring;

pub mod commuting;
pub mod compile;
pub mod completeness;
pub mod components;

pub mod conjugation;
pub mod cycle_space;
pub mod decongestion;
pub mod dependencies;
pub mod expander;
pub mod expansion;
pub mod extraction;
pub mod fewest_moves;
pub mod following;
pub mod frame;
pub mod graph;

pub mod graph_construction;

pub mod graph_to_checks;
pub mod injection;
pub mod kept;
pub mod keyed;
pub mod layers;

pub mod lexical;
pub mod load_store;

pub mod logical;
pub mod lowering;
pub mod matrix;
pub mod measured;
pub mod memory;
pub mod merged_code;
pub mod mip_partition;

pub mod numbering;
pub mod parse;
pub mod partition;

pub mod pbc;

pub mod phases;
pub mod physical;

pub mod pipeline;
pub mod pool;
pub mod random;
pub mod readout;
pub mod records;
pub mod replay;
pub mod report;
pub mod round_trip;

pub mod sat_partition;

pub mod search;

pub mod sec_schedule;

pub mod skiptree;
pub mod staggered;
pub mod stim;
pub mod streaming;

pub mod surgery;
pub mod syndrome;
pub mod text;
pub mod turns;
pub mod values;
pub mod whole_text;
pub mod wire;
pub mod written;
