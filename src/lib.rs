//! Dynamic-DNS reconciliation: bring a host's A and AAAA records in line with
//! the addresses observed for the machine.

pub mod text;
pub mod address;
pub mod reconcile;
pub mod laws;
pub mod config;
