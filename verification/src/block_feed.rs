//! The block feed's configuration and handle.  The feed keeps the
//! engine's logical clock in step with the chain by turning each new
//! block header into a [`crate::events::BlockHeader`] event; the
//! subscription itself is transport work and lives outside the library.

use vstd::prelude::*;

verus! {

/// Where the block feed connects.
pub struct Configuration {
    pub ethereum_provider_wss_url: String,
}

/// The block feed's handle: it remembers only where to connect.
pub struct EthereumBlocks {
    pub ethereum_provider_wss_url: String,
}

impl EthereumBlocks {
    /// Builds a feed handle from its configuration.
    pub fn new(configuration: &Configuration) -> (r: EthereumBlocks)
        ensures
            r.ethereum_provider_wss_url == configuration.ethereum_provider_wss_url,
    {
        EthereumBlocks {
            ethereum_provider_wss_url: configuration.ethereum_provider_wss_url.clone(),
        }
    }
}

} // verus!
