use liquidation_bot::events::{
    BlockHeader, Event, PositionWasClosed, PositionWasOpened, RiskFactorWasUpdated, Ticker,
};
use liquidation_bot::liquidator::{EngineError, Liquidator};
use liquidation_bot::types::{Address, CurrencyCode, Exchange, Pair, Token, PRICE_SCALE};

// 0x09A37C94DF2b68831F0e56b943A416a00E5FA154
const MARGIN_TRADING_STRATEGY_ADDRESS: Address = Address {
    hi: 0x09A37C94,
    lo: 0xDF2b68831F0e56b943A416a00E5FA154,
};

fn dai_token() -> Token {
    Token {
        name: "DAI Stablecoin".to_string(),
        // 0x4315D935947bf9430152b5e90E0A5675e888Be90
        address: Address {
            hi: 0x4315D935,
            lo: 0x947bf9430152b5e90E0A5675e888Be90,
        },
        decimals: 18,
        symbol: CurrencyCode::DAI,
    }
}

fn weth_token() -> Token {
    Token {
        name: "Wrapped Ether".to_string(),
        // 0x26CB03b59858dCD2b12F9309de5d1e8269e16F61
        address: Address {
            hi: 0x26CB03b5,
            lo: 0x9858dCD2b12F9309de5d1e8269e16F61,
        },
        decimals: 18,
        symbol: CurrencyCode::WETH,
    }
}

fn wbtc_token() -> Token {
    Token {
        name: "Wrapped Bitcoin".to_string(),
        // 0xc9EA4189848A3518B12808D98bFAD92eF48427A7
        address: Address {
            hi: 0xc9EA4189,
            lo: 0x848A3518B12808D98bFAD92eF48427A7,
        },
        decimals: 8,
        symbol: CurrencyCode::WBTC,
    }
}

// 0x643969a6ad1638e646Eda63961E1b54c198d15E3
const OWNER: Address = Address {
    hi: 0x643969a6,
    lo: 0xad1638e646Eda63961E1b54c198d15E3,
};

fn latest_block() -> BlockHeader {
    BlockHeader {
        timestamp: 1_700_000_000,
    }
}

fn base_events() -> Vec<Event> {
    let dai = dai_token();
    let weth = weth_token();
    let wbtc = wbtc_token();
    vec![
        Event::RiskFactorWasUpdated(RiskFactorWasUpdated {
            token: weth.address,
            new_risk_factor: 3000,
        }),
        Event::RiskFactorWasUpdated(RiskFactorWasUpdated {
            token: wbtc.address,
            new_risk_factor: 2000,
        }),
        Event::RiskFactorWasUpdated(RiskFactorWasUpdated {
            token: dai.address,
            new_risk_factor: 1000,
        }),
        Event::Ticker(Ticker {
            exchange: Exchange::Coinbase,
            pair: Pair(CurrencyCode::WBTC, CurrencyCode::USD),
            price: 20000 * PRICE_SCALE,
        }),
        Event::Ticker(Ticker {
            exchange: Exchange::Coinbase,
            pair: Pair(CurrencyCode::WETH, CurrencyCode::USD),
            price: 1000 * PRICE_SCALE,
        }),
        Event::Ticker(Ticker {
            exchange: Exchange::Coinbase,
            pair: Pair(CurrencyCode::DAI, CurrencyCode::USD),
            price: PRICE_SCALE,
        }),
        Event::PositionWasOpened(PositionWasOpened {
            id: 1,
            owner: OWNER,
            owed_token: dai.address,
            held_token: wbtc.address,
            collateral_token: dai.address,
            collateral: 100 * 10u128.pow(18), // 100 DAI
            principal: 900 * 10u128.pow(18),  // 900 DAI
            allowance: 5_000_000,             // 0.05 WBTC
            fees: 0,
            created_at: 1024, // Random block number.
        }),
    ]
}

fn fresh_liquidator() -> Liquidator {
    Liquidator::new(
        latest_block(),
        MARGIN_TRADING_STRATEGY_ADDRESS,
        vec![dai_token(), weth_token(), wbtc_token()],
    )
}

#[test]
fn test_position_is_liquidated_after_loss() {
    let mut liquidator = fresh_liquidator();
    let mut events = base_events();
    events.push(Event::Ticker(Ticker {
        exchange: Exchange::Coinbase,
        pair: Pair(CurrencyCode::WBTC, CurrencyCode::USD),
        price: 18300 * PRICE_SCALE,
    }));

    let mut liquidations = Vec::new();
    for event in &events {
        liquidations.append(&mut liquidator.run(event).unwrap());
    }

    assert_eq!(liquidations.len(), 1);
    assert_eq!(liquidations[0].position_id, 1);
    assert_eq!(liquidations[0].strategy, MARGIN_TRADING_STRATEGY_ADDRESS);
}

#[test]
fn test_no_liquidation_without_price_drop() {
    let mut liquidator = fresh_liquidator();
    let mut events = base_events();
    // WBTC stays at its opening price: the position is still covered.
    events.push(Event::Ticker(Ticker {
        exchange: Exchange::Coinbase,
        pair: Pair(CurrencyCode::WBTC, CurrencyCode::USD),
        price: 20000 * PRICE_SCALE,
    }));

    let mut liquidations = Vec::new();
    for event in &events {
        liquidations.append(&mut liquidator.run(event).unwrap());
    }

    assert_eq!(liquidations.len(), 0);
}

#[test]
fn test_second_tick_emits_no_duplicate_intent() {
    let mut liquidator = fresh_liquidator();
    for event in &base_events() {
        liquidator.run(event).unwrap();
    }
    let drop_tick = Event::Ticker(Ticker {
        exchange: Exchange::Coinbase,
        pair: Pair(CurrencyCode::WBTC, CurrencyCode::USD),
        price: 18300 * PRICE_SCALE,
    });
    assert_eq!(liquidator.run(&drop_tick).unwrap().len(), 1);
    // the same losing tick again: the position is already marked
    assert_eq!(liquidator.run(&drop_tick).unwrap().len(), 0);
}

#[test]
fn test_reopened_position_can_be_liquidated_again() {
    let mut liquidator = fresh_liquidator();
    let events = base_events();
    for event in &events {
        liquidator.run(event).unwrap();
    }
    let drop_tick = Event::Ticker(Ticker {
        exchange: Exchange::Coinbase,
        pair: Pair(CurrencyCode::WBTC, CurrencyCode::USD),
        price: 18300 * PRICE_SCALE,
    });
    assert_eq!(liquidator.run(&drop_tick).unwrap().len(), 1);

    // close the position, reopen it identically: it is eligible again
    liquidator
        .run(&Event::PositionWasClosed(PositionWasClosed { id: 1 }))
        .unwrap();
    let reopen = events.last().unwrap();
    liquidator.run(reopen).unwrap();
    assert_eq!(liquidator.run(&drop_tick).unwrap().len(), 1);
}

#[test]
fn test_closing_an_absent_position_is_a_noop() {
    let mut liquidator = fresh_liquidator();
    // neither a close nor a liquidation of an untracked id faults
    assert!(liquidator
        .run(&Event::PositionWasClosed(PositionWasClosed { id: 42 }))
        .is_ok());
    assert!(liquidator
        .run(&Event::PositionWasLiquidated(
            liquidation_bot::events::PositionWasLiquidated { id: 42 }
        ))
        .is_ok());
}

#[test]
fn test_replay_is_deterministic() {
    let mut first = fresh_liquidator();
    let mut second = fresh_liquidator();
    let mut events = base_events();
    events.push(Event::Ticker(Ticker {
        exchange: Exchange::Coinbase,
        pair: Pair(CurrencyCode::WBTC, CurrencyCode::USD),
        price: 18300 * PRICE_SCALE,
    }));

    let mut first_liqs = Vec::new();
    let mut second_liqs = Vec::new();
    for event in &events {
        first_liqs.append(&mut first.run(event).unwrap());
    }
    for event in &events {
        second_liqs.append(&mut second.run(event).unwrap());
    }
    assert_eq!(first_liqs, second_liqs);
}

#[test]
fn test_risk_update_for_unknown_token_faults() {
    let mut liquidator = fresh_liquidator();
    let unknown = Address { hi: 0xDEAD, lo: 0xBEEF };
    let result = liquidator.run(&Event::RiskFactorWasUpdated(RiskFactorWasUpdated {
        token: unknown,
        new_risk_factor: 1500,
    }));
    assert_eq!(result, Err(EngineError::UnknownRiskFactorToken(unknown)));
}

#[test]
fn test_score_boundary_is_strict() {
    // one fixed-point step above the break-even price the position is
    // still covered: the score must be strictly positive to liquidate
    let mut liquidator = fresh_liquidator();
    for event in &base_events() {
        liquidator.run(event).unwrap();
    }
    let just_above = Event::Ticker(Ticker {
        exchange: Exchange::Coinbase,
        pair: Pair(CurrencyCode::WBTC, CurrencyCode::USD),
        price: 18300 * PRICE_SCALE + 1,
    });
    assert_eq!(liquidator.run(&just_above).unwrap().len(), 0);
    let at_boundary = Event::Ticker(Ticker {
        exchange: Exchange::Coinbase,
        pair: Pair(CurrencyCode::WBTC, CurrencyCode::USD),
        price: 18300 * PRICE_SCALE,
    });
    assert_eq!(liquidator.run(&at_boundary).unwrap().len(), 1);
}

#[test]
fn test_due_fees_accrue_with_the_clock() {
    // the same position at a steady price, but carrying a full period of
    // interest at rate 1.0: the accrued debt alone makes it liquidatable
    let mut liquidator = fresh_liquidator();
    let mut events = base_events();
    let opened = events.pop().unwrap();
    let with_fees = match opened {
        Event::PositionWasOpened(mut o) => {
            o.fees = 10000; // the full resolution: one principal per period
            o.created_at = 1_700_000_000 - 86400; // one period ago
            Event::PositionWasOpened(o)
        }
        other => other,
    };
    events.push(with_fees);
    events.push(Event::Ticker(Ticker {
        exchange: Exchange::Coinbase,
        pair: Pair(CurrencyCode::WBTC, CurrencyCode::USD),
        price: 20000 * PRICE_SCALE, // no price drop at all
    }));

    let mut liquidations = Vec::new();
    for event in &events {
        liquidations.append(&mut liquidator.run(event).unwrap());
    }
    assert_eq!(liquidations.len(), 1);
}

#[test]
fn test_missing_price_means_no_liquidation() {
    // without any DAI/USD price the score is indeterminate: no intent,
    // whatever the WBTC price does
    let mut liquidator = fresh_liquidator();
    let dai = dai_token();
    let wbtc = wbtc_token();
    let events = vec![
        Event::RiskFactorWasUpdated(RiskFactorWasUpdated {
            token: wbtc.address,
            new_risk_factor: 2000,
        }),
        Event::RiskFactorWasUpdated(RiskFactorWasUpdated {
            token: dai.address,
            new_risk_factor: 1000,
        }),
        Event::PositionWasOpened(PositionWasOpened {
            id: 7,
            owner: OWNER,
            owed_token: dai.address,
            held_token: wbtc.address,
            collateral_token: dai.address,
            collateral: 100 * 10u128.pow(18),
            principal: 900 * 10u128.pow(18),
            allowance: 5_000_000,
            fees: 0,
            created_at: 1024,
        }),
        Event::Ticker(Ticker {
            exchange: Exchange::Coinbase,
            pair: Pair(CurrencyCode::WBTC, CurrencyCode::USD),
            price: PRICE_SCALE, // collapsed, but DAI/USD was never quoted
        }),
    ];
    let mut liquidations = Vec::new();
    for event in &events {
        liquidations.append(&mut liquidator.run(event).unwrap());
    }
    assert_eq!(liquidations.len(), 0);
}
