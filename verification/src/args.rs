//! The pipeline's invocation options, as plain data. The surrounding
//! binary parses its command line into these values; the controller and
//! executors consume them.

use vstd::prelude::*;

verus! {

/// Options common to every subcommand.
#[derive(Debug)]
pub struct Args {
    /// The discovery service's API key, when given on the command line.
    pub key: Option<String>,
    /// Verbose diagnostics.
    pub debug: bool,
    /// The working directory for artifacts and reports.
    pub out: String,
    /// The chosen subcommand.
    pub cmd: Cmd,
}

/// The pipeline's subcommands with their options.
#[derive(Debug)]
pub enum Cmd {
    /// The whole pipeline: discovery, both scan stages, rules, reports.
    Full {
        keywords: String,
        limit: usize,
        hunt: bool,
        hunt_needed: usize,
        hunt_min_open: usize,
        hunt_batch: usize,
        interesting_target: usize,
        interesting_min_open: usize,
        pages: usize,
        targets: Option<String>,
        fixed_ports: Option<String>,
        rs_concurrency: usize,
        nmap_concurrency: usize,
        nmap_extra: String,
        rules: String,
        resume: bool,
        hide_tcpwrapped: bool,
        only_open: bool,
        confirm_wrapped: bool,
    },
    /// Discovery only: collect addresses and stop.
    Intel { keywords: String, limit: usize, pages: usize },
    /// Port discovery only, over a target file.
    Rustscan { input_targets: String, timeout_ms: u64, batch: u32, concurrency: usize },
    /// Service scan only, from a recorded port-discovery result.
    Nmap {
        input_jsonl: Option<String>,
        fixed_ports: Option<String>,
        nmap_extra: String,
        concurrency: usize,
        resume: bool,
        hide_tcpwrapped: bool,
        only_open: bool,
        confirm_wrapped: bool,
    },
    /// Store or show the persistent API key.
    Config { set: Option<String>, show_path: bool },
    /// Remove artifacts.
    Clean { deep: bool },
}

} // verus!
