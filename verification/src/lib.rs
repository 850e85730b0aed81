pub mod block_feed;
pub mod chain_log;
pub mod events;
pub mod laws;
pub mod liquidator;
pub mod price_feed;
pub mod types;
