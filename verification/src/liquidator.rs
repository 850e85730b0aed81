//! The liquidation engine: a state machine folded over the canonical event
//! stream.  It owns the open-position book, the price cache and the
//! risk-factor cache, and on every price tick decides which positions have
//! become under-collateralized and must be liquidated.
//!
//! The engine is single-threaded by design: `run` is called once per event,
//! in receipt order, and a position chosen for liquidation is marked
//! `LiquidationRequested` before `run` returns, so a later tick can never
//! emit a second intent for the same position.
//!
//! Every transition is specified by the pure function [`spec_step`] and the
//! emission function [`spec_emits`] over the abstract [`EngineState`]; the
//! laws of the engine (replay, determinism, duplicate suppression) are
//! proved over those functions in [`crate::laws`].

use vstd::prelude::*;

use vstd::arithmetic::div_mod::{
    lemma_div_is_ordered, lemma_div_nonincreasing, lemma_fundamental_div_mod,
};
use vstd::arithmetic::mul::lemma_mul_strictly_positive;

use crate::events::{
    BlockHeader, Event, PositionWasClosed, PositionWasLiquidated, PositionWasOpened,
    RiskFactorWasUpdated, Ticker,
};
use crate::types::{Address, CurrencyCode, Liquidation, Pair, Token};

verus! {

/// Protocol resolution constant: risk factors and rate fractions are
/// scaled by this.
pub const VAULT_RESOLUTION: u128 = 10000;

/// Protocol time-fee period, in seconds: the stored rate accrues once per
/// period.
pub const VAULT_TIME_FEE_PERIOD: u128 = 86400;

/// Flat fee charged to every position, in owed-token units.
pub const POSITION_BASE_FEES: u128 = 1;

/// The lifecycle of a tracked position.
#[derive(Clone, Copy, Debug, PartialEq, Eq, Structural)]
pub enum PositionStatus {
    Opened,
    Closed,
    Liquidated,
    LiquidationRequested,
}

/// One open leveraged position, keyed by its protocol-assigned id.
#[derive(Clone, Copy, Debug, PartialEq, Eq, Structural)]
pub struct Position {
    pub id: u128,
    pub owner: Address,
    pub owed_token: Address,
    pub held_token: Address,
    pub collateral_token: Address,
    pub collateral: u128,
    pub principal: u128,
    pub allowance: u128,
    pub fees: u128,
    pub created_at: u128,
    pub status: PositionStatus,
}

/// The engine's fault: an event referenced a token address that the
/// registry does not hold, which bootstrap ordering should have prevented.
#[derive(Clone, Copy, Debug, PartialEq, Eq, Structural)]
pub enum EngineError {
    UnknownRiskFactorToken(Address),
}

/// The mathematical state of the engine: what the contracts and the laws
/// speak of.  The position book and the token registry are sequences
/// because their order fixes emission order and symbol resolution; the two
/// caches are maps.
pub struct EngineState {
    pub latest_timestamp: u128,
    pub positions: Seq<Position>,
    pub prices: Map<Pair, u128>,
    pub risk_factors: Map<CurrencyCode, u128>,
    pub strategy: Address,
    pub tokens: Seq<Token>,
}

impl EngineState {
    /// Well-formedness: position ids are unique, and registry addresses
    /// are unique.
    pub open spec fn wf(self) -> bool {
        &&& unique_position_ids(self.positions)
        &&& unique_token_addrs(self.tokens)
    }
}

/// No two positions share an id.
pub open spec fn unique_position_ids(s: Seq<Position>) -> bool {
    forall|i: int, j: int| 0 <= i < j < s.len() ==> s[i].id != s[j].id
}

/// No two registered tokens share an address.
pub open spec fn unique_token_addrs(s: Seq<Token>) -> bool {
    forall|i: int, j: int| 0 <= i < j < s.len() ==> s[i].address != s[j].address
}

/// No two price-cache entries share a pair key.
pub open spec fn unique_pair_keys(s: Seq<(Pair, u128)>) -> bool {
    forall|i: int, j: int| 0 <= i < j < s.len() ==> s[i].0 != s[j].0
}

/// No two risk-cache entries share a currency key.
pub open spec fn unique_code_keys(s: Seq<(CurrencyCode, u128)>) -> bool {
    forall|i: int, j: int| 0 <= i < j < s.len() ==> s[i].0 != s[j].0
}

/// The map held by an association list, later entries overriding earlier
/// ones.
pub open spec fn assoc_map<K, V>(s: Seq<(K, V)>) -> Map<K, V>
    decreases s.len(),
{
    if s.len() == 0 {
        Map::empty()
    } else {
        assoc_map(s.drop_last()).insert(s.last().0, s.last().1)
    }
}

/// A key is in the map exactly when some entry holds it.
proof fn lemma_assoc_contains<K, V>(s: Seq<(K, V)>, k: K)
    ensures
        assoc_map(s).contains_key(k) <==> exists|i: int| 0 <= i < s.len() && s[i].0 == k,
    decreases s.len(),
{
    if s.len() > 0 {
        lemma_assoc_contains(s.drop_last(), k);
        if s.last().0 == k {
            assert(s[s.len() - 1].0 == k);
        } else if assoc_map(s).contains_key(k) {
            let i = choose|i: int| 0 <= i < s.drop_last().len() && s.drop_last()[i].0 == k;
            assert(s[i].0 == k);
        } else if exists|i: int| 0 <= i < s.len() && s[i].0 == k {
            let i = choose|i: int| 0 <= i < s.len() && s[i].0 == k;
            assert(s.drop_last()[i].0 == k);
        }
    }
}

/// With unique keys, the map agrees with each entry.
proof fn lemma_assoc_get<K, V>(s: Seq<(K, V)>, i: int)
    requires
        forall|a: int, b: int| 0 <= a < b < s.len() ==> s[a].0 != s[b].0,
        0 <= i < s.len(),
    ensures
        assoc_map(s).contains_key(s[i].0),
        assoc_map(s)[s[i].0] == s[i].1,
    decreases s.len(),
{
    if i == s.len() - 1 {
    } else {
        lemma_assoc_get(s.drop_last(), i);
        assert(s.drop_last()[i] == s[i]);
        assert(s[i].0 != s.last().0);
    }
}

/// Replacing the entry that holds a key is a map insert.
proof fn lemma_assoc_update<K, V>(s: Seq<(K, V)>, i: int, v: (K, V))
    requires
        forall|a: int, b: int| 0 <= a < b < s.len() ==> s[a].0 != s[b].0,
        0 <= i < s.len(),
        s[i].0 == v.0,
    ensures
        assoc_map(s.update(i, v)) == assoc_map(s).insert(v.0, v.1),
    decreases s.len(),
{
    if i == s.len() - 1 {
        assert(s.update(i, v).drop_last() =~= s.drop_last());
        assert(s.update(i, v).last() == v);
        assert(assoc_map(s.update(i, v)) =~= assoc_map(s).insert(v.0, v.1));
    } else {
        lemma_assoc_update(s.drop_last(), i, v);
        assert(s.update(i, v).drop_last() =~= s.drop_last().update(i, v));
        assert(s.update(i, v).last() == s.last());
        assert(s[i].0 != s.last().0);
        assert(assoc_map(s.update(i, v)) =~= assoc_map(s).insert(v.0, v.1));
    }
}

/// Appending a fresh entry is a map insert.
proof fn lemma_assoc_push<K, V>(s: Seq<(K, V)>, v: (K, V))
    ensures
        assoc_map(s.push(v)) == assoc_map(s).insert(v.0, v.1),
{
    assert(s.push(v).drop_last() =~= s);
    assert(s.push(v).last() == v);
}

/// Some registered token carries this address.
pub open spec fn has_token_addr(s: Seq<Token>, a: Address) -> bool {
    exists|i: int| 0 <= i < s.len() && s[i].address == a
}

/// The index of the token carrying this address; with unique addresses
/// there is exactly one.
pub open spec fn token_addr_index(s: Seq<Token>, a: Address) -> int {
    choose|i: int| 0 <= i < s.len() && s[i].address == a
}

/// The registered token for an address, if any.
pub open spec fn spec_find_token(s: Seq<Token>, a: Address) -> Option<Token> {
    if has_token_addr(s, a) {
        Some(s[token_addr_index(s, a)])
    } else {
        None
    }
}

/// Some position in the book carries this id.
pub open spec fn has_position(s: Seq<Position>, id: u128) -> bool {
    exists|i: int| 0 <= i < s.len() && s[i].id == id
}

/// The index of the position carrying this id; with unique ids there is
/// exactly one.
pub open spec fn position_index(s: Seq<Position>, id: u128) -> int {
    choose|i: int| 0 <= i < s.len() && s[i].id == id
}

/// Inserting a position: replaces the one carrying its id, else appends.
pub open spec fn spec_upsert_position(s: Seq<Position>, p: Position) -> Seq<Position> {
    if has_position(s, p.id) {
        s.update(position_index(s, p.id), p)
    } else {
        s.push(p)
    }
}

/// Removing a position by id; removing an absent id is a no-op.
pub open spec fn spec_remove_position(s: Seq<Position>, id: u128) -> Seq<Position> {
    if has_position(s, id) {
        s.remove(position_index(s, id))
    } else {
        s
    }
}

/// Inserting a token into the registry: replaces the one carrying its
/// address, else appends.
pub open spec fn spec_upsert_token(s: Seq<Token>, t: Token) -> Seq<Token> {
    if has_token_addr(s, t.address) {
        s.update(token_addr_index(s, t.address), t)
    } else {
        s.push(t)
    }
}

/// `i` is the first registry index whose token carries this symbol.
pub open spec fn is_first_symbol_index(s: Seq<Token>, c: CurrencyCode, i: int) -> bool {
    &&& 0 <= i < s.len()
    &&& s[i].symbol == c
    &&& forall|j: int| 0 <= j < i ==> s[j].symbol != c
}

/// Some registered token carries this symbol.
pub open spec fn has_symbol(s: Seq<Token>, c: CurrencyCode) -> bool {
    exists|i: int| 0 <= i < s.len() && s[i].symbol == c
}

/// The address of the first registered token carrying this symbol: the
/// base token a price tick speaks of.
pub open spec fn spec_base_token(s: Seq<Token>, c: CurrencyCode) -> Option<Address> {
    if has_symbol(s, c) {
        Some(s[choose|i: int| is_first_symbol_index(s, c, i)].address)
    } else {
        None
    }
}

/// Ten to the power `n`.
pub open spec fn pow10(n: nat) -> int
    decreases n,
{
    if n == 0 {
        1
    } else {
        10 * pow10((n - 1) as nat)
    }
}

/// The risk factor of a pair of currencies: the mean of the two cached
/// factors, `None` when either is missing.
pub open spec fn spec_pair_risk_factor(
    risks: Map<CurrencyCode, u128>,
    c0: CurrencyCode,
    c1: CurrencyCode,
) -> Option<u128> {
    if risks.contains_key(c0) && risks.contains_key(c1) {
        Some(((risks[c0] + risks[c1]) / 2) as u128)
    } else {
        None
    }
}

/// Quoting `amount` of `src` in `dst` units through the cached USD
/// prices:
///
/// > `amount * price(src/USD) * 10^dst.decimals
/// >  / (price(dst/USD) * 10^src.decimals)`
///
/// in exact 128-bit integer arithmetic.  `None` when a price is missing,
/// when the destination price is zero, or when an intermediate exceeds
/// the 128-bit range: the position is then not evaluable, which never
/// yields an intent.  The fixed-point price scale cancels in the ratio.
pub open spec fn spec_quote(prices: Map<Pair, u128>, src: Token, dst: Token, amount: u128)
    -> Option<u128> {
    let src_key = Pair(src.symbol, CurrencyCode::USD);
    let dst_key = Pair(dst.symbol, CurrencyCode::USD);
    if !prices.contains_key(src_key) || !prices.contains_key(dst_key) {
        None
    } else {
        let src_price = prices[src_key];
        let dst_price = prices[dst_key];
        if pow10(dst.decimals as nat) > u128::MAX {
            None
        } else if pow10(src.decimals as nat) > u128::MAX {
            None
        } else if amount * src_price > u128::MAX {
            None
        } else if amount * src_price * pow10(dst.decimals as nat) > u128::MAX {
            None
        } else if dst_price * pow10(src.decimals as nat) > u128::MAX {
            None
        } else if dst_price == 0 {
            None
        } else {
            Some(
                ((amount * src_price * pow10(dst.decimals as nat)) / (dst_price * pow10(
                    src.decimals as nat,
                ))) as u128,
            )
        }
    }
}

/// The interest due on a position after `dt` seconds: a flat base fee
/// plus the stored rate accrued linearly, scaled by the protocol's
/// resolution and time-fee period.  `None` when an intermediate exceeds
/// the 128-bit range.
pub open spec fn spec_due_fees(fees: u128, dt: u128, principal: u128) -> Option<u128> {
    if fees * dt > u128::MAX {
        None
    } else if fees * dt * principal > u128::MAX {
        None
    } else {
        Some(
            (POSITION_BASE_FEES + (fees * dt * principal) / (VAULT_TIME_FEE_PERIOD
                * VAULT_RESOLUTION)) as u128,
        )
    }
}

/// Whether a position's liquidation score is positive: `Some(true)` says
/// liquidate, `Some(false)` says the position is still covered, `None`
/// says the score is indeterminate (an unregistered token, a missing
/// price or risk factor, a clock behind the position's creation, or a
/// quantity beyond the 128-bit range), which never yields an intent.
///
/// The score is `collateral * pairRiskFactor - pl * RESOLUTION`, where
/// `pl` is the expected proceeds of closing the position minus what is
/// owed; the comparison with zero is restated over unsigned values, on
/// each side of the symmetric collateral direction:
///
/// * collateral posted in the owed token:
///   `pl = quote(held -> owed, allowance) - (principal + dueFees)`, so the
///   score is positive when
///   `collateral * prf + (principal + dueFees) * RES > quote * RES`;
/// * collateral posted in the held token:
///   `pl = allowance - quote(owed -> held, principal + dueFees)`, so the
///   score is positive when
///   `collateral * prf + quote * RES > allowance * RES`.
pub open spec fn spec_score_verdict(m: EngineState, p: Position) -> Option<bool> {
    let held = spec_find_token(m.tokens, p.held_token);
    let owed = spec_find_token(m.tokens, p.owed_token);
    if held is None || owed is None {
        None
    } else {
        let held = held->0;
        let owed = owed->0;
        match spec_pair_risk_factor(m.risk_factors, held.symbol, owed.symbol) {
            None => None,
            Some(prf) => {
                if m.latest_timestamp < p.created_at {
                    None
                } else {
                    let dt = (m.latest_timestamp - p.created_at) as u128;
                    match spec_due_fees(p.fees, dt, p.principal) {
                        None => None,
                        Some(due) => {
                            if p.principal + due > u128::MAX {
                                None
                            } else {
                                let w = (p.principal + due) as u128;
                                if p.collateral_token != p.held_token {
                                    match spec_quote(m.prices, held, owed, p.allowance) {
                                        None => None,
                                        Some(q) => spec_score_positive(p.collateral, prf, w, q),
                                    }
                                } else {
                                    match spec_quote(m.prices, owed, held, w) {
                                        None => None,
                                        Some(q) => spec_score_positive(
                                            p.collateral,
                                            prf,
                                            q,
                                            p.allowance,
                                        ),
                                    }
                                }
                            }
                        },
                    }
                }
            },
        }
    }
}

/// The common comparison of both collateral directions: whether
/// `collateral * prf + gain * RESOLUTION > loss * RESOLUTION`, `None`
/// when a product exceeds the 128-bit range.
pub open spec fn spec_score_positive(collateral: u128, prf: u128, gain: u128, loss: u128)
    -> Option<bool> {
    if collateral * prf > u128::MAX {
        None
    } else if gain * VAULT_RESOLUTION > u128::MAX {
        None
    } else if collateral * prf + gain * VAULT_RESOLUTION > u128::MAX {
        None
    } else if loss * VAULT_RESOLUTION > u128::MAX {
        None
    } else {
        Some(collateral * prf + gain * VAULT_RESOLUTION > loss * VAULT_RESOLUTION)
    }
}

/// The position built by a `PositionWasOpened` event.
pub open spec fn spec_position_of(o: PositionWasOpened) -> Position {
    Position {
        id: o.id,
        owner: o.owner,
        owed_token: o.owed_token,
        held_token: o.held_token,
        collateral_token: o.collateral_token,
        collateral: o.collateral,
        principal: o.principal,
        allowance: o.allowance,
        fees: o.fees,
        created_at: o.created_at,
        status: PositionStatus::Opened,
    }
}

/// The state after a tick's price write, before scoring.
pub open spec fn spec_after_price(m: EngineState, t: Ticker) -> EngineState {
    EngineState { prices: m.prices.insert(t.pair, t.price), ..m }
}

/// Whether a tick must emit an intent for this position: it is still
/// `Opened`, it holds or owes the tick's base token, and its score is
/// positive.  `m1` is the state with the tick's price already cached.
pub open spec fn spec_tick_eligible(m1: EngineState, base: Option<Address>, p: Position) -> bool {
    &&& p.status == PositionStatus::Opened
    &&& match base {
        Some(a) => p.held_token == a || p.owed_token == a,
        None => false,
    }
    &&& spec_score_verdict(m1, p) == Some(true)
}

/// What a tick does to one position: an eligible position transitions to
/// `LiquidationRequested`; any other is untouched.
pub open spec fn spec_tick_pos(m1: EngineState, base: Option<Address>, p: Position) -> Position {
    if spec_tick_eligible(m1, base, p) {
        Position { status: PositionStatus::LiquidationRequested, ..p }
    } else {
        p
    }
}

/// The intents a tick emits: one per eligible position, in book order.
pub open spec fn spec_emits_rec(
    m1: EngineState,
    base: Option<Address>,
    strategy: Address,
    positions: Seq<Position>,
) -> Seq<Liquidation>
    decreases positions.len(),
{
    if positions.len() == 0 {
        Seq::empty()
    } else {
        spec_emits_rec(m1, base, strategy, positions.drop_last()) + if spec_tick_eligible(
            m1,
            base,
            positions.last(),
        ) {
            seq![Liquidation { strategy, position_id: positions.last().id }]
        } else {
            Seq::empty()
        }
    }
}

/// The state after applying a whole tick.
pub open spec fn spec_tick_state(m: EngineState, t: Ticker) -> EngineState {
    let m1 = spec_after_price(m, t);
    let base = spec_base_token(m.tokens, t.pair.0);
    EngineState {
        positions: Seq::new(
            m1.positions.len(),
            |i: int| spec_tick_pos(m1, base, m1.positions[i]),
        ),
        ..m1
    }
}

/// The intents a whole tick emits.
pub open spec fn spec_tick_emits(m: EngineState, t: Ticker) -> Seq<Liquidation> {
    let m1 = spec_after_price(m, t);
    let base = spec_base_token(m.tokens, t.pair.0);
    spec_emits_rec(m1, base, m.strategy, m1.positions)
}

/// The engine's transition function: the state after one event.  A risk
/// update for an unregistered token leaves the state unchanged (the
/// engine then faults, see [`spec_step_ok`]).
pub open spec fn spec_step(m: EngineState, e: Event) -> EngineState {
    match e {
        Event::BlockHeader(b) => EngineState { latest_timestamp: b.timestamp, ..m },
        Event::PositionWasOpened(o) => EngineState {
            positions: spec_upsert_position(m.positions, spec_position_of(o)),
            ..m
        },
        Event::PositionWasClosed(c) => EngineState {
            positions: spec_remove_position(m.positions, c.id),
            ..m
        },
        Event::PositionWasLiquidated(l) => EngineState {
            positions: spec_remove_position(m.positions, l.id),
            ..m
        },
        Event::RiskFactorWasUpdated(u) => match spec_find_token(m.tokens, u.token) {
            Some(t) => EngineState {
                risk_factors: m.risk_factors.insert(t.symbol, u.new_risk_factor),
                ..m
            },
            None => m,
        },
        Event::Ticker(t) => spec_tick_state(m, t),
    }
}

/// Whether the engine accepts the event: everything but a risk update
/// for an unregistered token, which is an invariant violation.
pub open spec fn spec_step_ok(m: EngineState, e: Event) -> bool {
    match e {
        Event::RiskFactorWasUpdated(u) => spec_find_token(m.tokens, u.token) is Some,
        _ => true,
    }
}

/// The intents one event emits: only a price tick emits.
pub open spec fn spec_emits(m: EngineState, e: Event) -> Seq<Liquidation> {
    match e {
        Event::Ticker(t) => spec_tick_emits(m, t),
        _ => Seq::empty(),
    }
}

/// Writes a price into the cache: overwrites the entry carrying the pair,
/// else appends one.
#[verifier::loop_isolation(false)]
fn price_upsert(prices: &mut Vec<(Pair, u128)>, pair: Pair, price: u128)
    requires
        unique_pair_keys(old(prices)@),
    ensures
        unique_pair_keys(final(prices)@),
        assoc_map(final(prices)@) == assoc_map(old(prices)@).insert(pair, price),
{
    let ghost s = prices@;
    let n = prices.len();
    let mut i: usize = 0;
    while i < n
        invariant
            n == s.len(),
            prices@ == s,
            i <= n,
            forall|j: int| 0 <= j < i ==> s[j].0 != pair,
        decreases n - i,
    {
        if prices[i].0 == pair {
            prices.remove(i);
            prices.insert(i, (pair, price));
            proof {
                assert(prices@ =~= s.update(i as int, (pair, price)));
                lemma_assoc_update(s, i as int, (pair, price));
            }
            return ;
        }
        i = i + 1;
    }
    prices.push((pair, price));
    proof {
        lemma_assoc_push(s, (pair, price));
    }
}

/// Reads the cached price of a pair.
#[verifier::loop_isolation(false)]
fn price_lookup(prices: &Vec<(Pair, u128)>, pair: Pair) -> (r: Option<u128>)
    requires
        unique_pair_keys(prices@),
    ensures
        r == if assoc_map(prices@).contains_key(pair) {
            Some(assoc_map(prices@)[pair])
        } else {
            None::<u128>
        },
{
    let ghost s = prices@;
    let n = prices.len();
    let mut i: usize = 0;
    while i < n
        invariant
            n == s.len(),
            prices@ == s,
            i <= n,
            forall|j: int| 0 <= j < i ==> s[j].0 != pair,
        decreases n - i,
    {
        if prices[i].0 == pair {
            proof {
                lemma_assoc_get(s, i as int);
            }
            return Some(prices[i].1);
        }
        i = i + 1;
    }
    proof {
        lemma_assoc_contains(s, pair);
    }
    None
}

/// Writes a risk factor into the cache: overwrites the entry carrying the
/// currency, else appends one.
#[verifier::loop_isolation(false)]
fn risk_upsert(risks: &mut Vec<(CurrencyCode, u128)>, code: CurrencyCode, rf: u128)
    requires
        unique_code_keys(old(risks)@),
    ensures
        unique_code_keys(final(risks)@),
        assoc_map(final(risks)@) == assoc_map(old(risks)@).insert(code, rf),
{
    let ghost s = risks@;
    let n = risks.len();
    let mut i: usize = 0;
    while i < n
        invariant
            n == s.len(),
            risks@ == s,
            i <= n,
            forall|j: int| 0 <= j < i ==> s[j].0 != code,
        decreases n - i,
    {
        if risks[i].0 == code {
            risks.remove(i);
            risks.insert(i, (code, rf));
            proof {
                assert(risks@ =~= s.update(i as int, (code, rf)));
                lemma_assoc_update(s, i as int, (code, rf));
            }
            return ;
        }
        i = i + 1;
    }
    risks.push((code, rf));
    proof {
        lemma_assoc_push(s, (code, rf));
    }
}

/// Reads the cached risk factor of a currency.
#[verifier::loop_isolation(false)]
fn risk_lookup(risks: &Vec<(CurrencyCode, u128)>, code: CurrencyCode) -> (r: Option<u128>)
    requires
        unique_code_keys(risks@),
    ensures
        r == if assoc_map(risks@).contains_key(code) {
            Some(assoc_map(risks@)[code])
        } else {
            None::<u128>
        },
{
    let ghost s = risks@;
    let n = risks.len();
    let mut i: usize = 0;
    while i < n
        invariant
            n == s.len(),
            risks@ == s,
            i <= n,
            forall|j: int| 0 <= j < i ==> s[j].0 != code,
        decreases n - i,
    {
        if risks[i].0 == code {
            proof {
                lemma_assoc_get(s, i as int);
            }
            return Some(risks[i].1);
        }
        i = i + 1;
    }
    proof {
        lemma_assoc_contains(s, code);
    }
    None
}

/// Inserts a position into the book, replacing the one with its id.
#[verifier::loop_isolation(false)]
fn upsert_position(positions: &mut Vec<Position>, p: Position)
    requires
        unique_position_ids(old(positions)@),
    ensures
        unique_position_ids(final(positions)@),
        final(positions)@ == spec_upsert_position(old(positions)@, p),
{
    let ghost s = positions@;
    let n = positions.len();
    let mut i: usize = 0;
    while i < n
        invariant
            n == s.len(),
            positions@ == s,
            i <= n,
            forall|j: int| 0 <= j < i ==> s[j].id != p.id,
        decreases n - i,
    {
        if positions[i].id == p.id {
            positions.remove(i);
            positions.insert(i, p);
            proof {
                assert(has_position(s, p.id));
                assert(unique_position_ids(s));
                let ci = position_index(s, p.id);
                assert(s[ci].id == p.id);
                assert(ci == i);
                assert(positions@ =~= s.update(i as int, p));
            }
            return ;
        }
        i = i + 1;
    }
    positions.push(p);
    proof {
        assert(!has_position(s, p.id));
    }
}

/// Removes the position with this id from the book; an absent id is a
/// no-op.
#[verifier::loop_isolation(false)]
fn remove_position(positions: &mut Vec<Position>, id: u128)
    requires
        unique_position_ids(old(positions)@),
    ensures
        unique_position_ids(final(positions)@),
        final(positions)@ == spec_remove_position(old(positions)@, id),
{
    let ghost s = positions@;
    let n = positions.len();
    let mut i: usize = 0;
    while i < n
        invariant
            n == s.len(),
            positions@ == s,
            i <= n,
            forall|j: int| 0 <= j < i ==> s[j].id != id,
        decreases n - i,
    {
        if positions[i].id == id {
            positions.remove(i);
            proof {
                assert(has_position(s, id));
                let ci = position_index(s, id);
                assert(s[ci].id == id);
                assert(ci == i);
                assert(forall|a: int, b: int|
                    0 <= a < b < positions@.len() ==> positions@[a].id != positions@[b].id);
            }
            return ;
        }
        i = i + 1;
    }
    proof {
        assert(!has_position(s, id));
    }
}

/// Inserts a token into the registry, replacing the one with its address.
#[verifier::loop_isolation(false)]
fn upsert_token(registry: &mut Vec<Token>, t: Token)
    requires
        unique_token_addrs(old(registry)@),
    ensures
        unique_token_addrs(final(registry)@),
        final(registry)@ == spec_upsert_token(old(registry)@, t),
{
    let ghost s = registry@;
    let ghost addr = t.address;
    let n = registry.len();
    let mut i: usize = 0;
    while i < n
        invariant
            n == s.len(),
            registry@ == s,
            addr == t.address,
            i <= n,
            forall|j: int| 0 <= j < i ==> s[j].address != addr,
        decreases n - i,
    {
        if registry[i].address == t.address {
            let ghost tv = t;
            registry.remove(i);
            registry.insert(i, t);
            proof {
                assert(has_token_addr(s, addr));
                let ci = token_addr_index(s, addr);
                assert(s[ci].address == addr);
                assert(ci == i);
                assert(registry@ =~= s.update(i as int, tv));
            }
            return ;
        }
        i = i + 1;
    }
    registry.push(t);
    proof {
        assert(!has_token_addr(s, addr));
    }
}

/// Looks a token up by address.
#[verifier::loop_isolation(false)]
fn find_token<'a>(registry: &'a Vec<Token>, a: Address) -> (r: Option<&'a Token>)
    requires
        unique_token_addrs(registry@),
    ensures
        match r {
            Some(t) => spec_find_token(registry@, a) == Some(*t),
            None => spec_find_token(registry@, a) is None,
        },
{
    let ghost s = registry@;
    let n = registry.len();
    let mut i: usize = 0;
    while i < n
        invariant
            n == s.len(),
            registry@ == s,
            i <= n,
            forall|j: int| 0 <= j < i ==> s[j].address != a,
        decreases n - i,
    {
        if registry[i].address == a {
            proof {
                assert(has_token_addr(s, a));
                let ci = token_addr_index(s, a);
                assert(s[ci].address == a);
                assert(ci == i);
            }
            return Some(&registry[i]);
        }
        i = i + 1;
    }
    proof {
        assert(!has_token_addr(s, a));
    }
    None
}

/// Looks the tick's base token up: the first registered token carrying
/// the symbol.
#[verifier::loop_isolation(false)]
fn find_base_token(registry: &Vec<Token>, c: CurrencyCode) -> (r: Option<Address>)
    ensures
        r == spec_base_token(registry@, c),
{
    let ghost s = registry@;
    let n = registry.len();
    let mut i: usize = 0;
    while i < n
        invariant
            n == s.len(),
            registry@ == s,
            i <= n,
            forall|j: int| 0 <= j < i ==> s[j].symbol != c,
        decreases n - i,
    {
        if registry[i].symbol == c {
            proof {
                assert(is_first_symbol_index(s, c, i as int));
                assert(has_symbol(s, c));
                let ci = choose|k: int| is_first_symbol_index(s, c, k);
                assert(is_first_symbol_index(s, c, ci));
                if ci < i {
                    assert(s[ci].symbol != c);
                } else if i < ci {
                    assert(s[i as int].symbol != c);
                }
                assert(ci == i);
            }
            return Some(registry[i].address);
        }
        i = i + 1;
    }
    proof {
        assert(!has_symbol(s, c));
    }
    None
}

/// The live engine.  The position book and both caches are owned
/// exclusively here; the token registry is filled once at construction
/// and then only read.
pub struct Liquidator {
    latest_block: BlockHeader,
    open_positions: Vec<Position>,
    prices: Vec<(Pair, u128)>,
    risk_factors: Vec<(CurrencyCode, u128)>,
    strategy_address: Address,
    tokens: Vec<Token>,
}

impl View for Liquidator {
    type V = EngineState;

    closed spec fn view(&self) -> EngineState {
        EngineState {
            latest_timestamp: self.latest_block.timestamp,
            positions: self.open_positions@,
            prices: assoc_map(self.prices@),
            risk_factors: assoc_map(self.risk_factors@),
            strategy: self.strategy_address,
            tokens: self.tokens@,
        }
    }
}

impl Liquidator {
    /// The representation invariant: each store's keys are unique, so the
    /// association lists and their maps agree entry by entry.
    pub closed spec fn inv(&self) -> bool {
        &&& unique_position_ids(self.open_positions@)
        &&& unique_pair_keys(self.prices@)
        &&& unique_code_keys(self.risk_factors@)
        &&& unique_token_addrs(self.tokens@)
    }

    /// What construction yields: an empty book and empty caches over the
    /// deduplicated registry.
    pub open spec fn spec_new(
        latest_block: BlockHeader,
        strategy_address: Address,
        tokens: Seq<Token>,
    ) -> EngineState {
        EngineState {
            latest_timestamp: latest_block.timestamp,
            positions: Seq::empty(),
            prices: Map::empty(),
            risk_factors: Map::empty(),
            strategy: strategy_address,
            tokens: spec_registry(tokens),
        }
    }

    /// Builds a fresh engine over the given token registry.  A token
    /// repeated under one address replaces the earlier entry, keeping
    /// addresses unique.
    #[verifier::loop_isolation(false)]
    pub fn new(latest_block: BlockHeader, strategy_address: Address, tokens: Vec<Token>) -> (r:
        Liquidator)
        ensures
            r.inv(),
            r@ == Self::spec_new(latest_block, strategy_address, tokens@),
    {
        let ghost input = tokens@;
        let mut rest = tokens;
        let mut registry: Vec<Token> = Vec::new();
        let ghost mut k: int = 0;
        proof {
            assert(input.take(0) =~= Seq::<Token>::empty());
        }
        while rest.len() > 0
            invariant
                0 <= k <= input.len(),
                rest@ =~= input.skip(k),
                unique_token_addrs(registry@),
                registry@ == spec_registry(input.take(k)),
            decreases input.len() - k,
        {
            let ghost t_at = input[k];
            let t = rest.remove(0);
            proof {
                assert(t == t_at);
                assert(rest@ =~= input.skip(k + 1));
            }
            upsert_token(&mut registry, t);
            proof {
                assert(input.take(k + 1).drop_last() =~= input.take(k));
                assert(input.take(k + 1).last() == input[k]);
                k = k + 1;
            }
        }
        proof {
            assert(input.take(input.len() as int) =~= input);
        }
        let open_positions: Vec<Position> = Vec::new();
        let prices: Vec<(Pair, u128)> = Vec::new();
        let risk_factors: Vec<(CurrencyCode, u128)> = Vec::new();
        proof {
            assert(open_positions@ =~= Seq::<Position>::empty());
            assert(assoc_map(prices@) =~= Map::<Pair, u128>::empty());
            assert(assoc_map(risk_factors@) =~= Map::<CurrencyCode, u128>::empty());
        }
        Liquidator {
            latest_block,
            open_positions,
            prices,
            risk_factors,
            strategy_address,
            tokens: registry,
        }
    }
}

/// The registry built from a token list, front to back, later entries
/// replacing earlier ones of the same address.
pub open spec fn spec_registry(tokens: Seq<Token>) -> Seq<Token>
    decreases tokens.len(),
{
    if tokens.len() == 0 {
        Seq::empty()
    } else {
        spec_upsert_token(spec_registry(tokens.drop_last()), tokens.last())
    }
}

/// `pow10` is positive and does not decrease with the exponent.
pub proof fn lemma_pow10_mono(a: nat, b: nat)
    requires
        a <= b,
    ensures
        1 <= pow10(a) <= pow10(b),
    decreases b,
{
    if a < b {
        lemma_pow10_mono(a, (b - 1) as nat);
    } else if a == b && a > 0 {
        lemma_pow10_mono((a - 1) as nat, (b - 1) as nat);
    }
}

/// Ten to the power `d` as a 128-bit value, `None` when it does not fit.
#[verifier::loop_isolation(false)]
fn pow10_u128(d: u32) -> (r: Option<u128>)
    ensures
        r == if pow10(d as nat) > u128::MAX {
            None::<u128>
        } else {
            Some(pow10(d as nat) as u128)
        },
{
    let mut acc: u128 = 1;
    let mut i: u32 = 0;
    while i < d
        invariant
            i <= d,
            acc == pow10(i as nat),
        decreases d - i,
    {
        acc = match acc.checked_mul(10) {
            Some(x) => x,
            None => {
                proof {
                    lemma_pow10_mono((i + 1) as nat, d as nat);
                }
                return None;
            },
        };
        i = i + 1;
    }
    Some(acc)
}

/// The common comparison of both collateral directions, with 128-bit
/// checked arithmetic.
fn score_positive(collateral: u128, prf: u128, gain: u128, loss: u128) -> (r: Option<bool>)
    ensures
        r == spec_score_positive(collateral, prf, gain, loss),
{
    let cp = match collateral.checked_mul(prf) {
        Some(x) => x,
        None => {
            return None;
        },
    };
    let g = match gain.checked_mul(VAULT_RESOLUTION) {
        Some(x) => x,
        None => {
            return None;
        },
    };
    let lhs = match cp.checked_add(g) {
        Some(x) => x,
        None => {
            return None;
        },
    };
    let l = match loss.checked_mul(VAULT_RESOLUTION) {
        Some(x) => x,
        None => {
            return None;
        },
    };
    Some(lhs > l)
}

impl Liquidator {
    /// The mean risk factor of the two currencies of a pair, from the
    /// cache.
    fn compute_pair_risk_factor(&self, token0: &CurrencyCode, token1: &CurrencyCode) -> (r:
        Option<u128>)
        requires
            self.inv(),
        ensures
            r == spec_pair_risk_factor(self@.risk_factors, *token0, *token1),
    {
        let r0 = risk_lookup(&self.risk_factors, *token0);
        let r1 = risk_lookup(&self.risk_factors, *token1);
        match (r0, r1) {
            (Some(a), Some(b)) => {
                let avg = a / 2 + b / 2 + (a % 2 + b % 2) / 2;
                proof {
                    lemma_fundamental_div_mod(a as int, 2);
                    lemma_fundamental_div_mod(b as int, 2);
                    assert(avg == ((a + b) / 2) as u128);
                }
                Some(avg)
            },
            _ => None,
        }
    }

    /// Quotes `amount` of `src` in `dst` units through the cached USD
    /// prices, in exact 128-bit integer arithmetic.
    fn quote(&self, src: &Token, dst: &Token, amount: u128) -> (r: Option<u128>)
        requires
            self.inv(),
        ensures
            r == spec_quote(self@.prices, *src, *dst, amount),
    {
        let src_price_opt = price_lookup(&self.prices, Pair(src.symbol, CurrencyCode::USD));
        let dst_price_opt = price_lookup(&self.prices, Pair(dst.symbol, CurrencyCode::USD));
        let (src_price, dst_price) = match (src_price_opt, dst_price_opt) {
            (Some(a), Some(b)) => (a, b),
            _ => {
                return None;
            },
        };
        proof {
            lemma_pow10_mono(0, dst.decimals as nat);
            lemma_pow10_mono(0, src.decimals as nat);
        }
        let pow_dst = match pow10_u128(dst.decimals) {
            Some(x) => x,
            None => {
                return None;
            },
        };
        let pow_src = match pow10_u128(src.decimals) {
            Some(x) => x,
            None => {
                return None;
            },
        };
        let n1 = match amount.checked_mul(src_price) {
            Some(x) => x,
            None => {
                return None;
            },
        };
        let n2 = match n1.checked_mul(pow_dst) {
            Some(x) => x,
            None => {
                return None;
            },
        };
        let den = match dst_price.checked_mul(pow_src) {
            Some(x) => x,
            None => {
                return None;
            },
        };
        if dst_price == 0 {
            return None;
        }
        proof {
            lemma_pow10_mono(0, src.decimals as nat);
            lemma_mul_strictly_positive(dst_price as int, pow_src as int);
            lemma_div_nonincreasing(n2 as int, den as int);
        }
        Some(n2 / den)
    }

    /// Whether the position's liquidation score is positive; `None` when
    /// the score cannot be evaluated, which never yields an intent.
    fn compute_liquidation_score(&self, position: &Position) -> (r: Option<bool>)
        requires
            self.inv(),
        ensures
            r == spec_score_verdict(self@, *position),
    {
        let held_token = match find_token(&self.tokens, position.held_token) {
            Some(t) => t,
            None => {
                return None;
            },
        };
        let owed_token = match find_token(&self.tokens, position.owed_token) {
            Some(t) => t,
            None => {
                return None;
            },
        };
        let prf = match self.compute_pair_risk_factor(&held_token.symbol, &owed_token.symbol) {
            Some(x) => x,
            None => {
                return None;
            },
        };
        if self.latest_block.timestamp < position.created_at {
            return None;
        }
        let dt = self.latest_block.timestamp - position.created_at;
        let f1 = match position.fees.checked_mul(dt) {
            Some(x) => x,
            None => {
                return None;
            },
        };
        let f2 = match f1.checked_mul(position.principal) {
            Some(x) => x,
            None => {
                return None;
            },
        };
        proof {
            lemma_div_is_ordered(
                f2 as int,
                u128::MAX as int,
                (VAULT_TIME_FEE_PERIOD * VAULT_RESOLUTION) as int,
            );
        }
        let due = f2 / (VAULT_TIME_FEE_PERIOD * VAULT_RESOLUTION) + POSITION_BASE_FEES;
        let w = match position.principal.checked_add(due) {
            Some(x) => x,
            None => {
                return None;
            },
        };
        if position.collateral_token != position.held_token {
            let q = match self.quote(held_token, owed_token, position.allowance) {
                Some(x) => x,
                None => {
                    return None;
                },
            };
            score_positive(position.collateral, prf, w, q)
        } else {
            let q = match self.quote(owed_token, held_token, w) {
                Some(x) => x,
                None => {
                    return None;
                },
            };
            score_positive(position.collateral, prf, q, position.allowance)
        }
    }

    /// Applies one canonical event and returns the liquidation intents it
    /// emits, in position-book order.  The transition is exactly
    /// [`spec_step`], the emission exactly [`spec_emits`]; the engine
    /// faults, leaving its state untouched, exactly on a risk-factor
    /// update whose token the registry does not hold.
    pub fn run(&mut self, event: &Event) -> (r: Result<Vec<Liquidation>, EngineError>)
        requires
            old(self).inv(),
        ensures
            final(self).inv(),
            r.is_ok() == spec_step_ok(old(self)@, *event),
            r matches Ok(v) ==> final(self)@ == spec_step(old(self)@, *event) && v@ == spec_emits(
                old(self)@,
                *event,
            ),
            r is Err ==> final(self)@ == old(self)@,
            r matches Err(e) ==> (*event matches Event::RiskFactorWasUpdated(u) && e
                == EngineError::UnknownRiskFactorToken(u.token)),
    {
        match event {
            Event::BlockHeader(block_header) => Ok(self.on_block_header(block_header)),
            Event::PositionWasOpened(position_was_opened) => Ok(
                self.on_position_opened(position_was_opened),
            ),
            Event::PositionWasClosed(position_was_closed) => Ok(
                self.on_position_closed(position_was_closed),
            ),
            Event::PositionWasLiquidated(position_was_liquidated) => Ok(
                self.on_position_liquidated(position_was_liquidated),
            ),
            Event::RiskFactorWasUpdated(risk_factor_was_updated) => self.on_risk_factor_updated(
                risk_factor_was_updated,
            ),
            Event::Ticker(ticker) => Ok(self.on_price_ticker(ticker)),
        }
    }

    /// Replaces the logical clock.
    fn on_block_header(&mut self, block_header: &BlockHeader) -> (r: Vec<Liquidation>)
        requires
            old(self).inv(),
        ensures
            final(self).inv(),
            final(self)@ == spec_step(old(self)@, Event::BlockHeader(*block_header)),
            r@ == Seq::<Liquidation>::empty(),
    {
        self.latest_block = *block_header;
        let out: Vec<Liquidation> = Vec::new();
        proof {
            assert(out@ =~= Seq::<Liquidation>::empty());
        }
        out
    }

    /// Tracks a freshly opened position, replacing any stale record under
    /// the same id.
    fn on_position_opened(&mut self, position_opened: &PositionWasOpened) -> (r: Vec<Liquidation>)
        requires
            old(self).inv(),
        ensures
            final(self).inv(),
            final(self)@ == spec_step(old(self)@, Event::PositionWasOpened(*position_opened)),
            r@ == Seq::<Liquidation>::empty(),
    {
        let position = Position {
            id: position_opened.id,
            owner: position_opened.owner,
            owed_token: position_opened.owed_token,
            held_token: position_opened.held_token,
            collateral_token: position_opened.collateral_token,
            collateral: position_opened.collateral,
            principal: position_opened.principal,
            allowance: position_opened.allowance,
            fees: position_opened.fees,
            created_at: position_opened.created_at,
            status: PositionStatus::Opened,
        };
        upsert_position(&mut self.open_positions, position);
        let out: Vec<Liquidation> = Vec::new();
        proof {
            assert(out@ =~= Seq::<Liquidation>::empty());
        }
        out
    }

    /// Forgets a closed position; an unknown id is a no-op.
    fn on_position_closed(&mut self, position_closed: &PositionWasClosed) -> (r: Vec<Liquidation>)
        requires
            old(self).inv(),
        ensures
            final(self).inv(),
            final(self)@ == spec_step(old(self)@, Event::PositionWasClosed(*position_closed)),
            r@ == Seq::<Liquidation>::empty(),
    {
        remove_position(&mut self.open_positions, position_closed.id);
        let out: Vec<Liquidation> = Vec::new();
        proof {
            assert(out@ =~= Seq::<Liquidation>::empty());
        }
        out
    }

    /// Forgets a liquidated position; an unknown id is a no-op.
    fn on_position_liquidated(&mut self, position_liquidated: &PositionWasLiquidated) -> (r:
        Vec<Liquidation>)
        requires
            old(self).inv(),
        ensures
            final(self).inv(),
            final(self)@ == spec_step(
                old(self)@,
                Event::PositionWasLiquidated(*position_liquidated),
            ),
            r@ == Seq::<Liquidation>::empty(),
    {
        remove_position(&mut self.open_positions, position_liquidated.id);
        let out: Vec<Liquidation> = Vec::new();
        proof {
            assert(out@ =~= Seq::<Liquidation>::empty());
        }
        out
    }

    /// Overwrites the risk factor of the token's currency; a token the
    /// registry does not hold is an invariant violation and faults the
    /// engine without touching its state.
    fn on_risk_factor_updated(&mut self, risk_factor_was_updated: &RiskFactorWasUpdated) -> (r:
        Result<Vec<Liquidation>, EngineError>)
        requires
            old(self).inv(),
        ensures
            final(self).inv(),
            r.is_ok() == spec_step_ok(
                old(self)@,
                Event::RiskFactorWasUpdated(*risk_factor_was_updated),
            ),
            r matches Ok(v) ==> final(self)@ == spec_step(
                old(self)@,
                Event::RiskFactorWasUpdated(*risk_factor_was_updated),
            ) && v@ == Seq::<Liquidation>::empty(),
            r is Err ==> final(self)@ == old(self)@ && r == Err::<Vec<Liquidation>, EngineError>(
                EngineError::UnknownRiskFactorToken(risk_factor_was_updated.token),
            ),
    {
        let symbol = match find_token(&self.tokens, risk_factor_was_updated.token) {
            Some(token) => token.symbol,
            None => {
                return Err(EngineError::UnknownRiskFactorToken(risk_factor_was_updated.token));
            },
        };
        risk_upsert(&mut self.risk_factors, symbol, risk_factor_was_updated.new_risk_factor);
        let out: Vec<Liquidation> = Vec::new();
        proof {
            assert(out@ =~= Seq::<Liquidation>::empty());
        }
        Ok(out)
    }

    /// Caches the tick's price, then walks the book once: every still-open
    /// position that holds or owes the tick's base token and whose score
    /// is positive yields one intent and transitions to
    /// `LiquidationRequested` before this call returns, so a later tick
    /// cannot emit a second intent for it.
    #[verifier::loop_isolation(false)]
    fn on_price_ticker(&mut self, ticker: &Ticker) -> (r: Vec<Liquidation>)
        requires
            old(self).inv(),
        ensures
            final(self).inv(),
            final(self)@ == spec_step(old(self)@, Event::Ticker(*ticker)),
            r@ == spec_emits(old(self)@, Event::Ticker(*ticker)),
    {
        let ghost m = self@;
        price_upsert(&mut self.prices, ticker.pair, ticker.price);
        let ghost m1 = spec_after_price(m, *ticker);
        proof {
            assert(self@ == m1);
        }
        let base = find_base_token(&self.tokens, ticker.pair.0);
        let n = self.open_positions.len();
        let mut new_positions: Vec<Position> = Vec::new();
        let mut liqs: Vec<Liquidation> = Vec::new();
        let mut i: usize = 0;
        proof {
            assert(m1.positions.take(0) =~= Seq::<Position>::empty());
            assert(liqs@ =~= spec_emits_rec(m1, base, m.strategy, m1.positions.take(0)));
        }
        while i < n
            invariant
                i <= n,
                self@ == m1,
                self.inv(),
                n == self.open_positions.len(),
                base == spec_base_token(m.tokens, ticker.pair.0),
                new_positions@.len() == i,
                forall|j: int|
                    0 <= j < i ==> new_positions@[j] == spec_tick_pos(m1, base, m1.positions[j]),
                liqs@ == spec_emits_rec(m1, base, m.strategy, m1.positions.take(i as int)),
            decreases n - i,
        {
            let p = self.open_positions[i];
            proof {
                assert(p == m1.positions[i as int]);
            }
            let mut eligible = false;
            if p.status == PositionStatus::Opened {
                let matches_base = match base {
                    Some(a) => p.held_token == a || p.owed_token == a,
                    None => false,
                };
                if matches_base {
                    match self.compute_liquidation_score(&p) {
                        Some(true) => {
                            eligible = true;
                        },
                        _ => {},
                    }
                }
            }
            proof {
                assert(eligible == spec_tick_eligible(m1, base, p));
            }
            if eligible {
                liqs.push(Liquidation { strategy: self.strategy_address, position_id: p.id });
                let mut updated = p;
                updated.status = PositionStatus::LiquidationRequested;
                new_positions.push(updated);
            } else {
                new_positions.push(p);
            }
            proof {
                assert(m1.positions.take(i + 1).drop_last() =~= m1.positions.take(i as int));
                assert(m1.positions.take(i + 1).last() == m1.positions[i as int]);
                assert(liqs@ =~= spec_emits_rec(m1, base, m.strategy, m1.positions.take(i + 1)));
            }
            i = i + 1;
        }
        proof {
            assert(m1.positions.take(n as int) =~= m1.positions);
        }
        self.open_positions = new_positions;
        proof {
            let target = spec_tick_state(m, *ticker).positions;
            assert(self.open_positions@ =~= target);
            assert(self@ == spec_tick_state(m, *ticker));
            assert forall|a: int, b: int|
                0 <= a < b < self.open_positions@.len() implies self.open_positions@[a].id
                != self.open_positions@[b].id by {
                assert(self.open_positions@[a].id == m1.positions[a].id);
                assert(self.open_positions@[b].id == m1.positions[b].id);
            }
        }
        liqs
    }
}

} // verus!
