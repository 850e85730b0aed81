//! Reference data shared across the feeds and the liquidation engine:
//! currency codes, trading pairs, tokens, on-chain addresses, and the
//! liquidation intent handed to the dispatcher.

use vstd::prelude::*;

verus! {

/// Prices are fixed-point integers scaled by this factor: one unit of the
/// quote currency is `PRICE_SCALE`.  The externally sourced quote is decimal
/// text; parsing keeps eight fractional digits exactly.
pub const PRICE_SCALE: u128 = 100_000_000;

/// The exchange a price tick originates from.
#[derive(Clone, Copy, Debug, PartialEq, Eq, Structural)]
pub enum Exchange {
    Coinbase,
}

/// The closed set of currency codes the system recognizes.  A token whose
/// symbol is outside this set cannot be registered, and a price-feed product
/// naming an unknown code is dropped.
#[derive(Clone, Copy, Debug, PartialEq, Eq, Structural, Hash)]
pub enum CurrencyCode {
    DAI,
    USD,
    USDC,
    WBTC,
    WETH,
}

/// An ordered pair of currency codes `(base, quote)`, the key of the price
/// cache.  `Pair(a, b)` and `Pair(b, a)` are distinct, matching quoting
/// semantics.
#[derive(Clone, Copy, Debug, PartialEq, Eq, Structural, Hash)]
pub struct Pair(pub CurrencyCode, pub CurrencyCode);

/// A 160-bit on-chain address, held as the four high bytes and the sixteen
/// low bytes.  Identity is plain field equality.
#[derive(Clone, Copy, Debug, PartialEq, Eq, Structural, Hash)]
pub struct Address {
    pub hi: u32,
    pub lo: u128,
}

/// Immutable reference data for one registered token.  Identity is the
/// on-chain address.
pub struct Token {
    pub name: String,
    pub address: Address,
    pub decimals: u32,
    pub symbol: CurrencyCode,
}

/// The engine's sole externally observable product: an instruction to
/// liquidate one position through the given strategy contract.
#[derive(Clone, Copy, Debug, PartialEq, Eq, Structural)]
pub struct Liquidation {
    pub strategy: Address,
    pub position_id: u128,
}

impl CurrencyCode {
    /// What `from_str` accepts: the recognized codes, with plain `ETH`
    /// standing in for wrapped ether, since the exchange quotes the
    /// wrapped token under the plain code.
    pub open spec fn spec_from_str(s: Seq<char>) -> Result<CurrencyCode, ()> {
        if s == seq!['D', 'A', 'I'] {
            Ok(CurrencyCode::DAI)
        } else if s == seq!['U', 'S', 'D'] {
            Ok(CurrencyCode::USD)
        } else if s == seq!['U', 'S', 'D', 'C'] {
            Ok(CurrencyCode::USDC)
        } else if s == seq!['W', 'B', 'T', 'C'] {
            Ok(CurrencyCode::WBTC)
        } else if s == seq!['E', 'T', 'H'] {
            Ok(CurrencyCode::WETH)
        } else {
            Err(())
        }
    }

    /// Parses a currency code from feed text.
    pub fn from_str(input: &str) -> (r: Result<CurrencyCode, ()>)
        ensures
            r == Self::spec_from_str(input@),
    {
        let n = input.unicode_len();
        if n == 3 {
            let c0 = input.get_char(0);
            let c1 = input.get_char(1);
            let c2 = input.get_char(2);
            if c0 == 'D' && c1 == 'A' && c2 == 'I' {
                proof {
                    assert(input@ =~= seq!['D', 'A', 'I']);
                }
                Ok(CurrencyCode::DAI)
            } else if c0 == 'U' && c1 == 'S' && c2 == 'D' {
                proof {
                    assert(input@ =~= seq!['U', 'S', 'D']);
                }
                Ok(CurrencyCode::USD)
            } else if c0 == 'E' && c1 == 'T' && c2 == 'H' {
                proof {
                    assert(input@ =~= seq!['E', 'T', 'H']);
                }
                Ok(CurrencyCode::WETH)
            } else {
                Err(())
            }
        } else if n == 4 {
            let c0 = input.get_char(0);
            let c1 = input.get_char(1);
            let c2 = input.get_char(2);
            let c3 = input.get_char(3);
            if c0 == 'U' && c1 == 'S' && c2 == 'D' && c3 == 'C' {
                proof {
                    assert(input@ =~= seq!['U', 'S', 'D', 'C']);
                }
                Ok(CurrencyCode::USDC)
            } else if c0 == 'W' && c1 == 'B' && c2 == 'T' && c3 == 'C' {
                proof {
                    assert(input@ =~= seq!['W', 'B', 'T', 'C']);
                }
                Ok(CurrencyCode::WBTC)
            } else {
                Err(())
            }
        } else {
            Err(())
        }
    }
}

} // verus!
