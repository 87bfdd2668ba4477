//! Folder statistics: parsing of size thresholds, aggregation of a scanned
//! file list, and the protocol of the worker process that runs a scan.
pub mod text;
pub mod size;
pub mod scan;
pub mod worker;
