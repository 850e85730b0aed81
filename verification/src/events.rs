//! The canonical, source-agnostic event vocabulary.  Every producer (chain
//! log feed, price feed, block feed) decodes its native protocol into these
//! values; the liquidation engine consumes them in receipt order.
//!
//! Protocol amounts, identifiers, timestamps and risk factors are plain
//! unsigned integers.  The engine evaluates positions through 128-bit
//! intermediates, so the vocabulary holds 128-bit values; a chain log whose
//! word exceeds that range is surfaced by the decoder as a malformed log,
//! never silently truncated.

use vstd::prelude::*;

use crate::types::{Address, Exchange, Pair};

verus! {

/// A new chain head: advances the engine's logical clock.
#[derive(Clone, Copy, Debug, PartialEq, Eq, Structural)]
pub struct BlockHeader {
    pub timestamp: u128,
}

/// A leveraged position was opened on the margin-trading contract.
#[derive(Clone, Copy, Debug, PartialEq, Eq, Structural)]
pub struct PositionWasOpened {
    pub id: u128,
    pub owner: Address,
    pub owed_token: Address,
    pub held_token: Address,
    pub collateral_token: Address,
    pub collateral: u128,
    pub principal: u128,
    pub allowance: u128,
    pub fees: u128,
    pub created_at: u128,
}

/// A position was closed by its owner.
#[derive(Clone, Copy, Debug, PartialEq, Eq, Structural)]
pub struct PositionWasClosed {
    pub id: u128,
}

/// A position was liquidated on chain.
#[derive(Clone, Copy, Debug, PartialEq, Eq, Structural)]
pub struct PositionWasLiquidated {
    pub id: u128,
}

/// The protocol changed the risk factor of a registered token.
#[derive(Clone, Copy, Debug, PartialEq, Eq, Structural)]
pub struct RiskFactorWasUpdated {
    pub token: Address,
    pub new_risk_factor: u128,
}

/// A fresh quote for one trading pair, in fixed-point units of
/// [`crate::types::PRICE_SCALE`].
#[derive(Clone, Copy, Debug, PartialEq, Eq, Structural)]
pub struct Ticker {
    pub exchange: Exchange,
    pub pair: Pair,
    pub price: u128,
}

/// The closed union of everything the engine can be fed.
#[derive(Clone, Copy, Debug, PartialEq, Eq, Structural)]
pub enum Event {
    BlockHeader(BlockHeader),
    PositionWasOpened(PositionWasOpened),
    PositionWasClosed(PositionWasClosed),
    PositionWasLiquidated(PositionWasLiquidated),
    RiskFactorWasUpdated(RiskFactorWasUpdated),
    Ticker(Ticker),
}

} // verus!
