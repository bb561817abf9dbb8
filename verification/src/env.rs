//! The configuration of a run.

use vstd::prelude::*;

verus! {

/// `tracing::Level`, the verbosity of the log. The library only carries
/// the value from the configuration to whoever sets the logger up.
#[verifier::external_type_specification]
#[verifier::external_body]
pub struct ExLevel(tracing::Level);

/// Configuration options of a run.
pub struct Env {
    /// The log level to use.
    pub log_level: tracing::Level,
    /// The path of the CSV file that holds the trades.
    pub csv_path: String,
    /// The URL of the JSON-RPC HTTP endpoint to use.
    pub json_rpc_http_url: String,
    /// The address of the deployed order book contract.
    pub orderbookv4_deployment_address: String,
    /// The block in which the order book contract was deployed: no run starts
    /// below it.
    pub orderbookv4_deployment_block: u64,
    /// The number of blocks covered by one request for event logs.
    pub blocks_per_log_request: u64,
}

} // verus!
