//! Decoding of storage ring files and resolution of partitions to devices,
//! together with a correlator for server log lines.

pub mod logparser;
pub mod ring;
