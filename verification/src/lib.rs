//! Scan orchestration engine: keyword-driven host discovery feeding a
//! two-stage port/service scan pipeline under bounded concurrency, with
//! resume-aware execution, flag normalization, a structured scan-result
//! codec, declarative rule dispatch and an adaptive/hunt control loop.
//!
//! The modules here hold the decision and data logic of the pipeline; the
//! surrounding binary performs processes, network and file I/O and feeds
//! plain values in and out.

pub mod args;
pub mod codec;
pub mod controller;
pub mod executor;
pub mod models;
pub mod nmap;
pub mod output;
pub mod rules;
pub mod rustscan;
pub mod shodan;
pub mod targets;
pub mod text;
