//! Settings of the node-side service.

use vstd::prelude::*;

verus! {

/// Service settings, read from a configuration file and the environment.
pub struct Conf {
    pub id: String,
    pub log_format: String,
    pub data_directory: String,
    pub rest_server_port: u16,
    pub rest_server_max_body_size: usize,
    pub da_read_from: String,
    pub contract_name: String,
    pub buffer_blocks: u32,
    pub max_txs_per_proof: usize,
    pub tx_working_window_size: usize,
}

} // verus!
