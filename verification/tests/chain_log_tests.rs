use liquidation_bot::chain_log::{
    decode_log, decode_logs, events_filter, make_signature_table, DecodeError, DecodeOutcome,
    RawLog, SignatureTable, Word, STRATEGY_DEPLOYMENT_BLOCK,
};
use liquidation_bot::events::Event;
use liquidation_bot::types::Address;

fn table() -> SignatureTable {
    SignatureTable {
        position_was_opened: Word { hi: 0x1111, lo: 0xAAAA },
        position_was_closed: Word { hi: 0x2222, lo: 0xBBBB },
        position_was_liquidated: Word { hi: 0x3333, lo: 0xCCCC },
        risk_factor_was_updated: Word { hi: 0x4444, lo: 0xDDDD },
    }
}

/// A 32-byte data word holding a 128-bit quantity.
fn uint_word(v: u128) -> Vec<u8> {
    let mut out = vec![0u8; 16];
    out.extend_from_slice(&v.to_be_bytes());
    out
}

/// A 32-byte data word holding an address in its last twenty bytes.
fn addr_word(a: Address) -> Vec<u8> {
    let mut out = vec![0u8; 12];
    out.extend_from_slice(&a.hi.to_be_bytes());
    out.extend_from_slice(&a.lo.to_be_bytes());
    out
}

fn owner() -> Address {
    // 0x643969a6ad1638e646Eda63961E1b54c198d15E3
    Address { hi: 0x643969a6, lo: 0xad1638e646Eda63961E1b54c198d15E3 }
}

fn dai() -> Address {
    // 0x4315D935947bf9430152b5e90E0A5675e888Be90
    Address { hi: 0x4315D935, lo: 0x947bf9430152b5e90E0A5675e888Be90 }
}

fn wbtc() -> Address {
    // 0xc9EA4189848A3518B12808D98bFAD92eF48427A7
    Address { hi: 0xc9EA4189, lo: 0x848A3518B12808D98bFAD92eF48427A7 }
}

fn opened_log() -> RawLog {
    let mut data = Vec::new();
    data.extend_from_slice(&addr_word(dai()));  // owedToken
    data.extend_from_slice(&addr_word(wbtc())); // heldToken
    data.extend_from_slice(&addr_word(dai()));  // collateralToken
    data.extend_from_slice(&uint_word(100_000_000_000_000_000_000)); // collateral
    data.extend_from_slice(&uint_word(900_000_000_000_000_000_000)); // principal
    data.extend_from_slice(&uint_word(5_000_000)); // allowance
    data.extend_from_slice(&uint_word(0)); // fees
    data.extend_from_slice(&uint_word(1024)); // createdAt
    RawLog {
        topics: vec![
            table().position_was_opened,
            Word { hi: 0, lo: 1 },                     // id
            Word { hi: owner().hi as u128, lo: owner().lo }, // owner
        ],
        data,
    }
}

#[test]
fn test_decode_position_was_opened() {
    let outcome = decode_log(&table(), &opened_log());
    match outcome {
        DecodeOutcome::Decoded(Event::PositionWasOpened(o)) => {
            assert_eq!(o.id, 1);
            assert_eq!(o.owner, owner());
            assert_eq!(o.owed_token, dai());
            assert_eq!(o.held_token, wbtc());
            assert_eq!(o.collateral_token, dai());
            assert_eq!(o.collateral, 100_000_000_000_000_000_000);
            assert_eq!(o.principal, 900_000_000_000_000_000_000);
            assert_eq!(o.allowance, 5_000_000);
            assert_eq!(o.fees, 0);
            assert_eq!(o.created_at, 1024);
        }
        other => panic!("expected a decoded open event, got {:?}", other),
    }
}

#[test]
fn test_decode_position_was_closed() {
    let log = RawLog {
        topics: vec![table().position_was_closed, Word { hi: 0, lo: 7 }],
        data: vec![],
    };
    match decode_log(&table(), &log) {
        DecodeOutcome::Decoded(Event::PositionWasClosed(c)) => assert_eq!(c.id, 7),
        other => panic!("expected a decoded close event, got {:?}", other),
    }
}

#[test]
fn test_decode_risk_factor_was_updated() {
    let log = RawLog {
        topics: vec![
            table().risk_factor_was_updated,
            Word { hi: wbtc().hi as u128, lo: wbtc().lo },
        ],
        data: uint_word(2000),
    };
    match decode_log(&table(), &log) {
        DecodeOutcome::Decoded(Event::RiskFactorWasUpdated(u)) => {
            assert_eq!(u.token, wbtc());
            assert_eq!(u.new_risk_factor, 2000);
        }
        other => panic!("expected a decoded risk update, got {:?}", other),
    }
}

#[test]
fn test_unknown_topic_is_unmatched() {
    let log = RawLog {
        topics: vec![Word { hi: 0x9999, lo: 0x9999 }],
        data: vec![],
    };
    assert_eq!(decode_log(&table(), &log), DecodeOutcome::Unmatched);
    let no_topics = RawLog { topics: vec![], data: vec![] };
    assert_eq!(decode_log(&table(), &no_topics), DecodeOutcome::Unmatched);
}

#[test]
fn test_truncated_data_is_malformed_not_unmatched() {
    let mut log = opened_log();
    log.data.truncate(255);
    assert_eq!(
        decode_log(&table(), &log),
        DecodeOutcome::Malformed(DecodeError::DataLength)
    );
}

#[test]
fn test_wrong_topic_count_is_malformed() {
    let log = RawLog {
        topics: vec![
            table().position_was_closed,
            Word { hi: 0, lo: 7 },
            Word { hi: 0, lo: 8 },
        ],
        data: vec![],
    };
    assert_eq!(
        decode_log(&table(), &log),
        DecodeOutcome::Malformed(DecodeError::TopicCount)
    );
}

#[test]
fn test_oversized_quantity_is_malformed() {
    let log = RawLog {
        topics: vec![table().position_was_closed, Word { hi: 1, lo: 7 }],
        data: vec![],
    };
    assert_eq!(
        decode_log(&table(), &log),
        DecodeOutcome::Malformed(DecodeError::ValueOutOfRange)
    );
}

#[test]
fn test_malformed_log_does_not_stop_the_batch() {
    let mut bad = opened_log();
    bad.data.truncate(17); // valid topic-0, truncated data
    let good = RawLog {
        topics: vec![table().position_was_closed, Word { hi: 0, lo: 9 }],
        data: vec![],
    };
    let events = decode_logs(&table(), &vec![bad, good]);
    assert_eq!(events.len(), 1);
    match &events[0] {
        Event::PositionWasClosed(c) => assert_eq!(c.id, 9),
        other => panic!("expected the close event after the bad log, got {:?}", other),
    }
}

#[test]
fn test_backfill_batch_keeps_order() {
    let closed = RawLog {
        topics: vec![table().position_was_closed, Word { hi: 0, lo: 2 }],
        data: vec![],
    };
    let events = decode_logs(&table(), &vec![opened_log(), closed]);
    assert_eq!(events.len(), 2);
    assert!(matches!(events[0], Event::PositionWasOpened(_)));
    assert!(matches!(events[1], Event::PositionWasClosed(_)));
}

#[test]
fn test_signature_table_digests_are_distinct() {
    // the canonical declarations differ, so their digests must too; four
    // equal or zero words would mean the digest ignored its input
    let table = make_signature_table();
    let words = [
        table.position_was_opened,
        table.position_was_closed,
        table.position_was_liquidated,
        table.risk_factor_was_updated,
    ];
    for (i, w) in words.iter().enumerate() {
        assert!(w.hi != 0 || w.lo != 0);
        for v in &words[i + 1..] {
            assert_ne!(w, v);
        }
    }
}

#[test]
fn test_decode_with_real_signature_table() {
    let table = make_signature_table();
    let log = RawLog {
        topics: vec![table.position_was_liquidated, Word { hi: 0, lo: 3 }],
        data: vec![],
    };
    match decode_log(&table, &log) {
        DecodeOutcome::Decoded(Event::PositionWasLiquidated(l)) => assert_eq!(l.id, 3),
        other => panic!("expected a decoded liquidation event, got {:?}", other),
    }
}

#[test]
fn test_events_filter_holds_the_four_signatures() {
    let contract = dai();
    let filter = events_filter(contract, &table(), STRATEGY_DEPLOYMENT_BLOCK);
    assert_eq!(filter.address, contract);
    assert_eq!(filter.from_block, 10742373);
    assert_eq!(filter.topics.len(), 4);
    assert_eq!(filter.topics[0], table().position_was_opened);
    assert_eq!(filter.topics[1], table().position_was_closed);
    assert_eq!(filter.topics[2], table().position_was_liquidated);
    assert_eq!(filter.topics[3], table().risk_factor_was_updated);
}
