//! Node configuration: the values a node needs for one submission loop.

use vstd::prelude::*;

verus! {

use crate::pair::CollateralPair;

/// Configuration of a price-oracle node.
#[derive(Debug, Clone)]
pub struct NodeConfig {
    /// Topic under which prices are published.
    pub topic: String,
    /// Name of the process environment variable holding the hex-encoded
    /// signing key.
    pub private_key: String,
    /// Interval in milliseconds between submission cycles.
    pub interval: u64,
    /// Collateral pairs to fetch prices for.
    pub collateral_pairs: Vec<CollateralPair>,
    /// Port to listen on, if any.
    pub port: Option<String>,
    /// Bootstrap nodes for peer discovery.
    pub bootstrap_nodes: Vec<String>,
    /// Network address of the relay service.
    pub relayer_address: String,
}

} // verus!
