//! Chain log decoding: maps a raw log entry (topic words plus an opaque
//! byte payload) onto the canonical event vocabulary, against the four
//! pre-registered event signatures of the margin-trading contract.
//!
//! Layouts are fixed by the contract's event declarations:
//!
//! * `PositionWasOpened`: `id` and `owner` indexed (topics 1 and 2), then
//!   eight data words: `owedToken`, `heldToken`, `collateralToken`,
//!   `collateral`, `principal`, `allowance`, `fees`, `createdAt`.
//! * `PositionWasClosed`, `PositionWasLiquidated`: `id` indexed, no data.
//! * `RiskFactorWasUpdated`: `token` indexed, one data word `newRiskFactor`.
//!
//! A log whose first topic matches no registered signature is no match and
//! is dropped; a matched log whose payload does not fit its layout is a
//! decode error, kept distinct so that a bad log never masquerades as a
//! foreign one.  Quantities are decoded into the engine's 128-bit integer
//! model; a word whose high sixteen bytes are not all zero is out of range
//! and counts as malformed.

use vstd::prelude::*;

use vstd::string::StringSliceAdditionalSpecFns;

use crate::events::{
    Event, PositionWasClosed, PositionWasLiquidated, PositionWasOpened, RiskFactorWasUpdated,
};
use crate::types::Address;

verus! {

/// The block the margin-trading contract was deployed at: historical
/// backfill starts here.
pub const STRATEGY_DEPLOYMENT_BLOCK: u64 = 10742373;

/// One 256-bit log word, split into its sixteen high and sixteen low
/// big-endian bytes.
#[derive(Clone, Copy, Debug, PartialEq, Eq, Structural, Hash)]
pub struct Word {
    pub hi: u128,
    pub lo: u128,
}

/// A raw log entry as the transport hands it over.
pub struct RawLog {
    pub topics: Vec<Word>,
    pub data: Vec<u8>,
}

/// The four pre-registered event signatures (topic-0 words), computed once
/// at startup from the contract's interface description.
#[derive(Clone, Copy, Debug, PartialEq, Eq, Structural)]
pub struct SignatureTable {
    pub position_was_opened: Word,
    pub position_was_closed: Word,
    pub position_was_liquidated: Word,
    pub risk_factor_was_updated: Word,
}

/// Why a log that matched a known signature failed to decode.
#[derive(Clone, Copy, Debug, PartialEq, Eq, Structural)]
pub enum DecodeError {
    /// The topic count does not fit the matched event's layout.
    TopicCount,
    /// The data payload length does not fit the matched event's layout.
    DataLength,
    /// A 256-bit quantity exceeds the engine's 128-bit integer model.
    ValueOutOfRange,
}

/// The decoder's verdict on one raw log.
#[derive(Clone, Copy, Debug, PartialEq, Eq, Structural)]
pub enum DecodeOutcome {
    /// The first topic matched a registered signature and the payload
    /// decoded into a canonical event.
    Decoded(Event),
    /// The first topic matches no registered signature (or there is no
    /// first topic); the log belongs to some other event and is dropped.
    Unmatched,
    /// The first topic matched but the payload does not fit the layout:
    /// a hard decode error, distinct from [`DecodeOutcome::Unmatched`].
    Malformed(DecodeError),
}

/// The value of a big-endian byte string.
pub open spec fn be_bytes_val(s: Seq<u8>) -> int
    decreases s.len(),
{
    if s.len() == 0 {
        0
    } else {
        be_bytes_val(s.drop_last()) * 256 + s.last()
    }
}

/// 256 to the power `n`: the number of values of an `n`-byte string.
pub open spec fn pow256(n: nat) -> int
    decreases n,
{
    if n == 0 {
        1
    } else {
        256 * pow256((n - 1) as nat)
    }
}

proof fn lemma_pow256_16()
    ensures
        pow256(16) == 0x1_0000_0000_0000_0000_0000_0000_0000_0000,
        pow256(4) == 0x1_0000_0000,
{
    reveal_with_fuel(pow256, 17);
}

/// A big-endian byte string's value is bounded by the count of values of
/// its length.
proof fn lemma_be_bytes_val_bound(s: Seq<u8>)
    ensures
        0 <= be_bytes_val(s) < pow256(s.len()),
    decreases s.len(),
{
    if s.len() > 0 {
        lemma_be_bytes_val_bound(s.drop_last());
    }
}

/// Reads the big-endian value of `data[start .. start + len]`.
fn read_be_u128(data: &Vec<u8>, start: usize, len: usize) -> (r: u128)
    requires
        len <= 16,
        start + len <= data@.len(),
    ensures
        r == be_bytes_val(data@.subrange(start as int, start + len)),
{
    let n = data.len();
    let mut acc: u128 = 0;
    let mut j: usize = 0;
    proof {
        assert(data@.subrange(start as int, start as int) =~= Seq::<u8>::empty());
    }
    while j < len
        invariant
            j <= len,
            len <= 16,
            n == data@.len(),
            start + len <= n,
            acc == be_bytes_val(data@.subrange(start as int, start + j)),
            acc < pow256(j as nat),
        decreases len - j,
    {
        proof {
            lemma_pow256_mono(j as nat, 15);
            lemma_pow256_16();
            assert(acc * 256 <= (pow256(15) - 1) * 256) by (nonlinear_arith)
                requires
                    acc < pow256(15),
                    0 <= acc,
            ;
            reveal_with_fuel(pow256, 17);
        }
        let b = data[start + j];
        let next = acc * 256 + (b as u128);
        proof {
            let prefix = data@.subrange(start as int, start + j);
            let ext = data@.subrange(start as int, start + j + 1);
            assert(ext.drop_last() =~= prefix);
            assert(ext.last() == b);
        }
        acc = next;
        j = j + 1;
    }
    acc
}

/// `pow256` does not decrease with the exponent.
proof fn lemma_pow256_mono(a: nat, b: nat)
    requires
        a <= b,
    ensures
        pow256(a) <= pow256(b),
        pow256(a) >= 1,
    decreases b,
{
    if a < b {
        lemma_pow256_mono(a, (b - 1) as nat);
        assert(pow256(b) == 256 * pow256((b - 1) as nat));
    } else if a == b && a > 0 {
        lemma_pow256_mono((a - 1) as nat, (b - 1) as nat);
    }
}

/// The 128-bit quantity held by data word `k`, if its high half is zero.
pub open spec fn spec_data_uint(data: Seq<u8>, k: int) -> Option<u128> {
    if be_bytes_val(data.subrange(32 * k, 32 * k + 16)) == 0 {
        Some(be_bytes_val(data.subrange(32 * k + 16, 32 * k + 32)) as u128)
    } else {
        None
    }
}

/// The address held by data word `k`: its last twenty bytes; the high
/// twelve bytes are padding and are ignored.
pub open spec fn spec_data_address(data: Seq<u8>, k: int) -> Address {
    Address {
        hi: be_bytes_val(data.subrange(32 * k + 12, 32 * k + 16)) as u32,
        lo: be_bytes_val(data.subrange(32 * k + 16, 32 * k + 32)) as u128,
    }
}

/// The 128-bit quantity held by a topic word, if its high half is zero.
pub open spec fn spec_topic_uint(w: Word) -> Option<u128> {
    if w.hi == 0 {
        Some(w.lo)
    } else {
        None
    }
}

/// The address held by a topic word: its last twenty bytes.
pub open spec fn spec_topic_address(w: Word) -> Address {
    Address { hi: (w.hi % 0x1_0000_0000) as u32, lo: w.lo }
}

/// Reads the 128-bit quantity of data word `k`, `None` if out of range.
fn read_data_uint(data: &Vec<u8>, k: usize) -> (r: Option<u128>)
    requires
        32 * k + 32 <= data@.len(),
    ensures
        r == spec_data_uint(data@, k as int),
{
    let n = data.len();
    proof {
        assert(32 * k + 32 <= n);
    }
    let hi = read_be_u128(data, 32 * k, 16);
    let lo = read_be_u128(data, 32 * k + 16, 16);
    if hi == 0 {
        proof {
            lemma_be_bytes_val_bound(data@.subrange(32 * k + 16, 32 * k + 32));
            lemma_pow256_16();
        }
        Some(lo)
    } else {
        None
    }
}

/// Reads the address of data word `k`.
fn read_data_address(data: &Vec<u8>, k: usize) -> (r: Address)
    requires
        32 * k + 32 <= data@.len(),
    ensures
        r == spec_data_address(data@, k as int),
{
    let n = data.len();
    proof {
        assert(32 * k + 32 <= n);
    }
    let hi = read_be_u128(data, 32 * k + 12, 4);
    let lo = read_be_u128(data, 32 * k + 16, 16);
    proof {
        lemma_be_bytes_val_bound(data@.subrange(32 * k + 12, 32 * k + 16));
        lemma_be_bytes_val_bound(data@.subrange(32 * k + 16, 32 * k + 32));
        lemma_pow256_16();
    }
    Address { hi: hi as u32, lo }
}

/// Reads the 128-bit quantity of a topic word, `None` if out of range.
fn topic_uint(w: &Word) -> (r: Option<u128>)
    ensures
        r == spec_topic_uint(*w),
{
    if w.hi == 0 {
        Some(w.lo)
    } else {
        None
    }
}

/// Reads the address of a topic word.
fn topic_address(w: &Word) -> (r: Address)
    ensures
        r == spec_topic_address(*w),
{
    Address { hi: (w.hi % 0x1_0000_0000) as u32, lo: w.lo }
}

/// What decoding a `PositionWasOpened` log yields.
pub open spec fn spec_decode_opened(topics: Seq<Word>, data: Seq<u8>) -> DecodeOutcome {
    if topics.len() != 3 {
        DecodeOutcome::Malformed(DecodeError::TopicCount)
    } else if data.len() != 256 {
        DecodeOutcome::Malformed(DecodeError::DataLength)
    } else {
        let id = spec_topic_uint(topics[1]);
        let collateral = spec_data_uint(data, 3);
        let principal = spec_data_uint(data, 4);
        let allowance = spec_data_uint(data, 5);
        let fees = spec_data_uint(data, 6);
        let created_at = spec_data_uint(data, 7);
        if id is None || collateral is None || principal is None || allowance is None
            || fees is None || created_at is None {
            DecodeOutcome::Malformed(DecodeError::ValueOutOfRange)
        } else {
            DecodeOutcome::Decoded(Event::PositionWasOpened(PositionWasOpened {
                id: id->0,
                owner: spec_topic_address(topics[2]),
                owed_token: spec_data_address(data, 0),
                held_token: spec_data_address(data, 1),
                collateral_token: spec_data_address(data, 2),
                collateral: collateral->0,
                principal: principal->0,
                allowance: allowance->0,
                fees: fees->0,
                created_at: created_at->0,
            }))
        }
    }
}

/// What decoding a `PositionWasClosed` log yields.
pub open spec fn spec_decode_closed(topics: Seq<Word>, data: Seq<u8>) -> DecodeOutcome {
    if topics.len() != 2 {
        DecodeOutcome::Malformed(DecodeError::TopicCount)
    } else if data.len() != 0 {
        DecodeOutcome::Malformed(DecodeError::DataLength)
    } else {
        match spec_topic_uint(topics[1]) {
            Some(id) => DecodeOutcome::Decoded(Event::PositionWasClosed(PositionWasClosed { id })),
            None => DecodeOutcome::Malformed(DecodeError::ValueOutOfRange),
        }
    }
}

/// What decoding a `PositionWasLiquidated` log yields.
pub open spec fn spec_decode_liquidated(topics: Seq<Word>, data: Seq<u8>) -> DecodeOutcome {
    if topics.len() != 2 {
        DecodeOutcome::Malformed(DecodeError::TopicCount)
    } else if data.len() != 0 {
        DecodeOutcome::Malformed(DecodeError::DataLength)
    } else {
        match spec_topic_uint(topics[1]) {
            Some(id) => DecodeOutcome::Decoded(
                Event::PositionWasLiquidated(PositionWasLiquidated { id }),
            ),
            None => DecodeOutcome::Malformed(DecodeError::ValueOutOfRange),
        }
    }
}

/// What decoding a `RiskFactorWasUpdated` log yields.
pub open spec fn spec_decode_risk_factor(topics: Seq<Word>, data: Seq<u8>) -> DecodeOutcome {
    if topics.len() != 2 {
        DecodeOutcome::Malformed(DecodeError::TopicCount)
    } else if data.len() != 32 {
        DecodeOutcome::Malformed(DecodeError::DataLength)
    } else {
        match spec_data_uint(data, 0) {
            Some(rf) => DecodeOutcome::Decoded(Event::RiskFactorWasUpdated(RiskFactorWasUpdated {
                token: spec_topic_address(topics[1]),
                new_risk_factor: rf,
            })),
            None => DecodeOutcome::Malformed(DecodeError::ValueOutOfRange),
        }
    }
}

/// The decoder's full verdict on one raw log: match the first topic
/// against the registered signatures, then decode positionally.
pub open spec fn spec_decode_log(table: SignatureTable, topics: Seq<Word>, data: Seq<u8>)
    -> DecodeOutcome {
    if topics.len() == 0 {
        DecodeOutcome::Unmatched
    } else if topics[0] == table.position_was_opened {
        spec_decode_opened(topics, data)
    } else if topics[0] == table.position_was_closed {
        spec_decode_closed(topics, data)
    } else if topics[0] == table.position_was_liquidated {
        spec_decode_liquidated(topics, data)
    } else if topics[0] == table.risk_factor_was_updated {
        spec_decode_risk_factor(topics, data)
    } else {
        DecodeOutcome::Unmatched
    }
}

/// Decodes one raw log against the registered signature table.
pub fn decode_log(table: &SignatureTable, log: &RawLog) -> (r: DecodeOutcome)
    ensures
        r == spec_decode_log(*table, log.topics@, log.data@),
{
    if log.topics.len() == 0 {
        return DecodeOutcome::Unmatched;
    }
    let t0 = log.topics[0];
    if t0 == table.position_was_opened {
        decode_opened(log)
    } else if t0 == table.position_was_closed {
        match decode_single_id(log) {
            Ok(id) => DecodeOutcome::Decoded(Event::PositionWasClosed(PositionWasClosed { id })),
            Err(e) => DecodeOutcome::Malformed(e),
        }
    } else if t0 == table.position_was_liquidated {
        match decode_single_id(log) {
            Ok(id) => DecodeOutcome::Decoded(
                Event::PositionWasLiquidated(PositionWasLiquidated { id }),
            ),
            Err(e) => DecodeOutcome::Malformed(e),
        }
    } else if t0 == table.risk_factor_was_updated {
        decode_risk_factor(log)
    } else {
        DecodeOutcome::Unmatched
    }
}

/// Decodes the `PositionWasOpened` layout.
fn decode_opened(log: &RawLog) -> (r: DecodeOutcome)
    ensures
        r == spec_decode_opened(log.topics@, log.data@),
{
    if log.topics.len() != 3 {
        return DecodeOutcome::Malformed(DecodeError::TopicCount);
    }
    if log.data.len() != 256 {
        return DecodeOutcome::Malformed(DecodeError::DataLength);
    }
    let id = topic_uint(&log.topics[1]);
    let collateral = read_data_uint(&log.data, 3);
    let principal = read_data_uint(&log.data, 4);
    let allowance = read_data_uint(&log.data, 5);
    let fees = read_data_uint(&log.data, 6);
    let created_at = read_data_uint(&log.data, 7);
    match (id, collateral, principal, allowance, fees, created_at) {
        (Some(id), Some(collateral), Some(principal), Some(allowance), Some(fees),
            Some(created_at)) => DecodeOutcome::Decoded(Event::PositionWasOpened(
            PositionWasOpened {
                id,
                owner: topic_address(&log.topics[2]),
                owed_token: read_data_address(&log.data, 0),
                held_token: read_data_address(&log.data, 1),
                collateral_token: read_data_address(&log.data, 2),
                collateral,
                principal,
                allowance,
                fees,
                created_at,
            },
        )),
        _ => DecodeOutcome::Malformed(DecodeError::ValueOutOfRange),
    }
}

/// Decodes the shared layout of `PositionWasClosed` and
/// `PositionWasLiquidated`: one indexed id, no data.
fn decode_single_id(log: &RawLog) -> (r: Result<u128, DecodeError>)
    ensures
        log.topics@.len() != 2 ==> r == Err::<u128, DecodeError>(DecodeError::TopicCount),
        log.topics@.len() == 2 && log.data@.len() != 0 ==> r == Err::<u128, DecodeError>(
            DecodeError::DataLength,
        ),
        log.topics@.len() == 2 && log.data@.len() == 0 ==> r == match spec_topic_uint(
            log.topics@[1],
        ) {
            Some(id) => Ok::<u128, DecodeError>(id),
            None => Err(DecodeError::ValueOutOfRange),
        },
{
    if log.topics.len() != 2 {
        return Err(DecodeError::TopicCount);
    }
    if log.data.len() != 0 {
        return Err(DecodeError::DataLength);
    }
    match topic_uint(&log.topics[1]) {
        Some(id) => Ok(id),
        None => Err(DecodeError::ValueOutOfRange),
    }
}

/// Decodes the `RiskFactorWasUpdated` layout.
fn decode_risk_factor(log: &RawLog) -> (r: DecodeOutcome)
    ensures
        r == spec_decode_risk_factor(log.topics@, log.data@),
{
    if log.topics.len() != 2 {
        return DecodeOutcome::Malformed(DecodeError::TopicCount);
    }
    if log.data.len() != 32 {
        return DecodeOutcome::Malformed(DecodeError::DataLength);
    }
    match read_data_uint(&log.data, 0) {
        Some(rf) => DecodeOutcome::Decoded(Event::RiskFactorWasUpdated(RiskFactorWasUpdated {
            token: topic_address(&log.topics[1]),
            new_risk_factor: rf,
        })),
        None => DecodeOutcome::Malformed(DecodeError::ValueOutOfRange),
    }
}

/// The events of a whole log batch, in order: every log that decodes
/// contributes its event; unmatched and malformed logs contribute nothing.
pub open spec fn spec_decode_events(table: SignatureTable, logs: Seq<RawLog>) -> Seq<Event>
    decreases logs.len(),
{
    if logs.len() == 0 {
        Seq::empty()
    } else {
        spec_decode_events(table, logs.drop_last()) + match spec_decode_log(
            table,
            logs.last().topics@,
            logs.last().data@,
        ) {
            DecodeOutcome::Decoded(e) => seq![e],
            _ => Seq::empty(),
        }
    }
}

/// Decodes a batch of historical logs for backfill replay: the result is
/// the ordered list of decoded events, with unmatched and malformed logs
/// dropped.  A bad log never stops the batch: everything after it is still
/// decoded.
pub fn decode_logs(table: &SignatureTable, logs: &Vec<RawLog>) -> (r: Vec<Event>)
    ensures
        r@ == spec_decode_events(*table, logs@),
{
    let mut out: Vec<Event> = Vec::new();
    let mut i: usize = 0;
    proof {
        assert(logs@.take(0) =~= Seq::<RawLog>::empty());
    }
    while i < logs.len()
        invariant
            i <= logs@.len(),
            out@ == spec_decode_events(*table, logs@.take(i as int)),
        decreases logs@.len() - i,
    {
        match decode_log(table, &logs[i]) {
            DecodeOutcome::Decoded(e) => {
                out.push(e);
            },
            _ => {},
        }
        proof {
            assert(logs@.take(i + 1).drop_last() =~= logs@.take(i as int));
            assert(logs@.take(i + 1).last() == logs@[i as int]);
        }
        i = i + 1;
    }
    proof {
        assert(logs@.take(logs@.len() as int) =~= logs@);
    }
    out
}

/// A malformed log is skipped without consequence: the decoded batch is
/// exactly what it would have been had the bad log not been there, so the
/// logs after it are still decoded and forwarded.
pub proof fn lemma_malformed_log_is_skipped(table: SignatureTable, logs: Seq<RawLog>, i: int)
    requires
        0 <= i < logs.len(),
        !(spec_decode_log(table, logs[i].topics@, logs[i].data@) is Decoded),
    ensures
        spec_decode_events(table, logs) == spec_decode_events(table, logs.remove(i)),
    decreases logs.len(),
{
    if i == logs.len() - 1 {
        assert(logs.remove(i) =~= logs.drop_last());
    } else {
        lemma_malformed_log_is_skipped(table, logs.drop_last(), i);
        assert(logs.remove(i).drop_last() =~= logs.drop_last().remove(i));
        assert(logs.remove(i).last() == logs.last());
    }
}

/// The Keccak-256 digest of a byte string, split into the two halves of
/// a topic word: a function of the input bytes alone.
pub uninterp spec fn keccak256_of(input: Seq<u8>) -> (u128, u128);

/// Relies on `web3::signing::keccak256`: the Keccak-256 digest of the
/// input bytes, a pure function of its argument.
#[verifier::external_body]
fn keccak256_word(input: &[u8]) -> (r: Word)
    ensures
        (r.hi, r.lo) == keccak256_of(input@),
{
    let h = web3::signing::keccak256(input);
    Word {
        hi: u128::from_be_bytes(h[0..16].try_into().unwrap()),
        lo: u128::from_be_bytes(h[16..32].try_into().unwrap()),
    }
}

/// Builds the signature table: each entry is the digest of the matching
/// event's canonical declaration, which is what the contract puts in a
/// log's first topic.
pub fn make_signature_table() -> (r: SignatureTable)
    ensures
        (r.position_was_opened.hi, r.position_was_opened.lo) == keccak256_of(
            "PositionWasOpened(uint256,address,address,address,address,uint256,uint256,uint256,uint256,uint256)".spec_bytes(),
        ),
        (r.position_was_closed.hi, r.position_was_closed.lo) == keccak256_of(
            "PositionWasClosed(uint256)".spec_bytes(),
        ),
        (r.position_was_liquidated.hi, r.position_was_liquidated.lo) == keccak256_of(
            "PositionWasLiquidated(uint256)".spec_bytes(),
        ),
        (r.risk_factor_was_updated.hi, r.risk_factor_was_updated.lo) == keccak256_of(
            "RiskFactorWasUpdated(address,uint256)".spec_bytes(),
        ),
{
    SignatureTable {
        position_was_opened: keccak256_word(
            "PositionWasOpened(uint256,address,address,address,address,uint256,uint256,uint256,uint256,uint256)".as_bytes(),
        ),
        position_was_closed: keccak256_word("PositionWasClosed(uint256)".as_bytes()),
        position_was_liquidated: keccak256_word("PositionWasLiquidated(uint256)".as_bytes()),
        risk_factor_was_updated: keccak256_word("RiskFactorWasUpdated(address,uint256)".as_bytes()),
    }
}

/// The subscription filter the feeds run with: one contract address, the
/// four registered topic-0 signatures, and the block the backfill starts
/// from.  Its size is fixed by construction.
pub struct EventsFilter {
    pub address: Address,
    pub topics: Vec<Word>,
    pub from_block: u64,
}

/// Builds the events filter for the margin-trading contract.
pub fn events_filter(contract: Address, table: &SignatureTable, from_block: u64) -> (r:
    EventsFilter)
    ensures
        r.address == contract,
        r.from_block == from_block,
        r.topics@ == seq![
            table.position_was_opened,
            table.position_was_closed,
            table.position_was_liquidated,
            table.risk_factor_was_updated,
        ],
{
    let mut topics: Vec<Word> = Vec::new();
    topics.push(table.position_was_opened);
    topics.push(table.position_was_closed);
    topics.push(table.position_was_liquidated);
    topics.push(table.risk_factor_was_updated);
    proof {
        assert(topics@ =~= seq![
            table.position_was_opened,
            table.position_was_closed,
            table.position_was_liquidated,
            table.risk_factor_was_updated,
        ]);
    }
    EventsFilter { address: contract, topics, from_block }
}

} // verus!
