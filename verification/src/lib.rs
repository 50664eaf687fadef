//! Progress tracking and device framing for timely dataflow on heterogeneous systems.

pub mod access;
pub mod active;
pub mod assembly;
pub mod bloom;
pub mod bloom_hard;
pub mod change_batch;
pub mod delay;
pub mod device;
pub mod emulation;
pub mod execute;
pub mod fakeoperator;
pub mod fpga_wrapper;
pub mod fpga_wrapper_eci;
pub mod fpga_wrapper_pci;
pub mod fpga_wrapper_simulation;
pub mod frontier;
pub mod location;
pub mod logging;
pub mod naming;
pub mod order;
pub mod per_operator;
pub mod ports;
pub mod reachability;
pub mod registration;
pub mod shared_progress;
pub mod statements;
pub mod subgraph;
pub mod subgraph_builder;
pub mod sums;
pub mod validation;
pub mod words;
