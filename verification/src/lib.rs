//! Verified core of the DWD traffic generator and its companion test backend.
pub mod accuracy;
pub mod backend;
pub mod budget;
pub mod control;
pub mod dpdk;
pub mod engine;
pub mod figures;
pub mod float;
pub mod histogram;
pub mod jsonline;
pub mod net;
pub mod produce;
pub mod rates;
pub mod sampler;
pub mod shaper;
pub mod snapshot;
pub mod sockstat;
pub mod stat;
pub mod summary;
pub mod text;
pub mod totals;
pub mod worker;
