//! The engine's laws, proved over the pure transition function
//! [`spec_step`] and emission function [`spec_emits`] that
//! [`crate::liquidator::Liquidator::run`] is verified against:
//!
//! * replaying any event sequence leaves exactly the opened-minus-removed
//!   position ids, whatever price and risk events are interleaved;
//! * replay is deterministic: equal starting states and equal event
//!   sequences give equal final states and equal intent sequences;
//! * a tick only emits intents for still-open positions that hold or owe
//!   the tick's base token;
//! * once a position is named in an emitted intent, no later tick emits a
//!   second intent for it unless it is first reopened.

use vstd::prelude::*;

use crate::events::{Event, Ticker};
use crate::liquidator::{
    spec_after_price, spec_base_token, spec_emits, spec_emits_rec, spec_position_of,
    spec_remove_position, spec_step, spec_tick_eligible, spec_tick_emits, spec_tick_pos,
    EngineState, Position, PositionStatus,
};
use crate::types::{Address, Liquidation};

verus! {

/// The set of position ids a book holds.
pub open spec fn ids_of(s: Seq<Position>) -> Set<u128> {
    Set::new(|id: u128| exists|i: int| 0 <= i < s.len() && s[i].id == id)
}

/// What one event does to the id set: an open inserts, a close or a
/// liquidation removes, everything else leaves it alone.
pub open spec fn spec_step_ids(ids: Set<u128>, e: Event) -> Set<u128> {
    match e {
        Event::PositionWasOpened(o) => ids.insert(o.id),
        Event::PositionWasClosed(c) => ids.remove(c.id),
        Event::PositionWasLiquidated(l) => ids.remove(l.id),
        _ => ids,
    }
}

/// The state after replaying a whole event sequence.
pub open spec fn spec_replay(m: EngineState, events: Seq<Event>) -> EngineState
    decreases events.len(),
{
    if events.len() == 0 {
        m
    } else {
        spec_replay(spec_step(m, events[0]), events.drop_first())
    }
}

/// Every intent emitted while replaying a whole event sequence, in order.
pub open spec fn spec_emitted(m: EngineState, events: Seq<Event>) -> Seq<Liquidation>
    decreases events.len(),
{
    if events.len() == 0 {
        Seq::empty()
    } else {
        spec_emits(m, events[0]) + spec_emitted(spec_step(m, events[0]), events.drop_first())
    }
}

/// The id set after folding a whole event sequence.
pub open spec fn spec_replay_ids(ids: Set<u128>, events: Seq<Event>) -> Set<u128>
    decreases events.len(),
{
    if events.len() == 0 {
        ids
    } else {
        spec_replay_ids(spec_step_ids(ids, events[0]), events.drop_first())
    }
}

/// One step keeps the state well-formed.
proof fn lemma_step_wf(m: EngineState, e: Event)
    requires
        m.wf(),
    ensures
        spec_step(m, e).wf(),
{
    let s = m.positions;
    let s2 = spec_step(m, e).positions;
    match e {
        Event::PositionWasOpened(o) => {
            let p = spec_position_of(o);
            if crate::liquidator::has_position(s, p.id) {
                let ci = crate::liquidator::position_index(s, p.id);
                assert(s[ci].id == p.id);
                assert forall|a: int, b: int| 0 <= a < b < s2.len() implies s2[a].id != s2[b].id by {
                    assert(s2[a].id == s[a].id);
                    assert(s2[b].id == s[b].id);
                }
            } else {
                assert forall|a: int, b: int| 0 <= a < b < s2.len() implies s2[a].id != s2[b].id by {
                    if b < s.len() {
                    } else {
                        assert(s2[b].id == p.id);
                        assert(s2[a].id == s[a].id);
                    }
                }
            }
        },
        Event::PositionWasClosed(c) => {
            lemma_remove_keeps_unique(s, c.id);
        },
        Event::PositionWasLiquidated(l) => {
            lemma_remove_keeps_unique(s, l.id);
        },
        Event::Ticker(t) => {
            assert forall|a: int, b: int| 0 <= a < b < s2.len() implies s2[a].id != s2[b].id by {
                assert(s2[a].id == s[a].id);
                assert(s2[b].id == s[b].id);
            }
        },
        _ => {},
    }
}

/// Removing a position keeps ids unique.
proof fn lemma_remove_keeps_unique(s: Seq<Position>, id: u128)
    requires
        crate::liquidator::unique_position_ids(s),
    ensures
        crate::liquidator::unique_position_ids(spec_remove_position(s, id)),
{
    if crate::liquidator::has_position(s, id) {
        let ci = crate::liquidator::position_index(s, id);
        let s2 = s.remove(ci);
        assert forall|a: int, b: int| 0 <= a < b < s2.len() implies s2[a].id != s2[b].id by {
            let oa = if a < ci {
                a
            } else {
                a + 1
            };
            let ob = if b < ci {
                b
            } else {
                b + 1
            };
            assert(s2[a] == s[oa]);
            assert(s2[b] == s[ob]);
        }
    }
}

/// One step changes the id set exactly as [`spec_step_ids`] says.
proof fn lemma_step_ids(m: EngineState, e: Event)
    requires
        m.wf(),
    ensures
        ids_of(spec_step(m, e).positions) == spec_step_ids(ids_of(m.positions), e),
{
    let s = m.positions;
    let s2 = spec_step(m, e).positions;
    match e {
        Event::PositionWasOpened(o) => {
            let p = spec_position_of(o);
            assert(p.id == o.id);
            if crate::liquidator::has_position(s, p.id) {
                let ci = crate::liquidator::position_index(s, p.id);
                assert(s[ci].id == p.id);
                assert forall|x: u128| ids_of(s2).contains(x) implies spec_step_ids(
                    ids_of(s),
                    e,
                ).contains(x) by {
                    let i = choose|i: int| 0 <= i < s2.len() && s2[i].id == x;
                    if i == ci {
                        assert(x == p.id);
                        assert(s[ci].id == x);
                    } else {
                        assert(s[i].id == x);
                    }
                }
                assert forall|x: u128| spec_step_ids(ids_of(s), e).contains(x) implies ids_of(
                    s2,
                ).contains(x) by {
                    if x == p.id {
                        assert(s2[ci].id == x);
                    } else {
                        let i = choose|i: int| 0 <= i < s.len() && s[i].id == x;
                        assert(i != ci);
                        assert(s2[i].id == x);
                    }
                }
                assert(ids_of(s2) =~= spec_step_ids(ids_of(s), e));
            } else {
                assert forall|x: u128| ids_of(s2).contains(x) implies spec_step_ids(
                    ids_of(s),
                    e,
                ).contains(x) by {
                    let i = choose|i: int| 0 <= i < s2.len() && s2[i].id == x;
                    if i < s.len() {
                        assert(s[i].id == x);
                    } else {
                        assert(x == p.id);
                    }
                }
                assert forall|x: u128| spec_step_ids(ids_of(s), e).contains(x) implies ids_of(
                    s2,
                ).contains(x) by {
                    if x == p.id {
                        assert(s2[s.len() as int].id == x);
                    } else {
                        let i = choose|i: int| 0 <= i < s.len() && s[i].id == x;
                        assert(s2[i].id == x);
                    }
                }
                assert(ids_of(s2) =~= spec_step_ids(ids_of(s), e));
            }
        },
        Event::PositionWasClosed(c) => {
            lemma_remove_ids(s, c.id);
        },
        Event::PositionWasLiquidated(l) => {
            lemma_remove_ids(s, l.id);
        },
        Event::Ticker(t) => {
            assert forall|x: u128| ids_of(s2).contains(x) implies ids_of(s).contains(x) by {
                let i = choose|i: int| 0 <= i < s2.len() && s2[i].id == x;
                assert(s[i].id == x);
            }
            assert forall|x: u128| ids_of(s).contains(x) implies ids_of(s2).contains(x) by {
                let i = choose|i: int| 0 <= i < s.len() && s[i].id == x;
                assert(s2[i].id == x);
            }
            assert(ids_of(s2) =~= spec_step_ids(ids_of(s), e));
        },
        _ => {
            assert(ids_of(s2) =~= spec_step_ids(ids_of(s), e));
        },
    }
}

/// Removing by id takes exactly that id out of the set; an absent id is a
/// no-op.
proof fn lemma_remove_ids(s: Seq<Position>, id: u128)
    requires
        crate::liquidator::unique_position_ids(s),
    ensures
        ids_of(spec_remove_position(s, id)) == ids_of(s).remove(id),
{
    let s2 = spec_remove_position(s, id);
    if crate::liquidator::has_position(s, id) {
        let ci = crate::liquidator::position_index(s, id);
        assert(s[ci].id == id);
        assert forall|x: u128| ids_of(s2).contains(x) implies ids_of(s).remove(id).contains(x) by {
            let i = choose|i: int| 0 <= i < s2.len() && s2[i].id == x;
            let oi = if i < ci {
                i
            } else {
                i + 1
            };
            assert(s[oi].id == x);
            assert(oi != ci);
            assert(x != id);
        }
        assert forall|x: u128| ids_of(s).remove(id).contains(x) implies ids_of(s2).contains(x) by {
            let i = choose|i: int| 0 <= i < s.len() && s[i].id == x;
            assert(x != id);
            assert(i != ci);
            let ni = if i < ci {
                i
            } else {
                i - 1
            };
            assert(s2[ni].id == x);
        }
        assert(ids_of(s2) =~= ids_of(s).remove(id));
    } else {
        assert(!ids_of(s).contains(id));
        assert(ids_of(s2) =~= ids_of(s).remove(id));
    }
}

/// Replaying any event sequence leaves exactly the id set given by
/// folding opens as inserts and closes/liquidations as removes, whatever
/// block, price and risk events are interleaved; removing an absent id is
/// a no-op, so the fold never faults.
pub proof fn lemma_replay_ids(m: EngineState, events: Seq<Event>)
    requires
        m.wf(),
    ensures
        spec_replay(m, events).wf(),
        ids_of(spec_replay(m, events).positions) == spec_replay_ids(ids_of(m.positions), events),
    decreases events.len(),
{
    if events.len() > 0 {
        lemma_step_wf(m, events[0]);
        lemma_step_ids(m, events[0]);
        lemma_replay_ids(spec_step(m, events[0]), events.drop_first());
    }
}

/// Determinism: two engines started equal and fed the same events end
/// equal, and emit the same intents in the same order.
pub proof fn lemma_replay_deterministic(m1: EngineState, m2: EngineState, events: Seq<Event>)
    requires
        m1 == m2,
    ensures
        spec_replay(m1, events) == spec_replay(m2, events),
        spec_emitted(m1, events) == spec_emitted(m2, events),
{
}

/// Every element of the emission walk names an eligible position of the
/// walked book, with the walk's strategy address.
proof fn lemma_emits_rec_member(
    m1: EngineState,
    base: Option<Address>,
    strategy: Address,
    positions: Seq<Position>,
    k: int,
)
    requires
        0 <= k < spec_emits_rec(m1, base, strategy, positions).len(),
    ensures
        exists|i: int|
            0 <= i < positions.len() && spec_tick_eligible(m1, base, positions[i])
                && spec_emits_rec(m1, base, strategy, positions)[k] == (Liquidation {
                strategy,
                position_id: positions[i].id,
            }),
    decreases positions.len(),
{
    let prefix = spec_emits_rec(m1, base, strategy, positions.drop_last());
    if k < prefix.len() {
        lemma_emits_rec_member(m1, base, strategy, positions.drop_last(), k);
        let i = choose|i: int|
            0 <= i < positions.drop_last().len() && spec_tick_eligible(
                m1,
                base,
                positions.drop_last()[i],
            ) && prefix[k] == (Liquidation {
                strategy,
                position_id: positions.drop_last()[i].id,
            });
        assert(positions[i] == positions.drop_last()[i]);
    } else {
        assert(spec_tick_eligible(m1, base, positions.last()));
        let i = positions.len() - 1;
        assert(spec_emits_rec(m1, base, strategy, positions)[k] == (Liquidation {
            strategy,
            position_id: positions[i].id,
        }));
    }
}

/// A tick never emits an intent for a position that does not hold or owe
/// the tick's base token: every emitted intent names a position of the
/// book that is still `Opened` and whose held or owed token is the
/// registered base token of the tick's pair.
pub proof fn lemma_tick_emits_only_matching(m: EngineState, t: Ticker, k: int)
    requires
        0 <= k < spec_tick_emits(m, t).len(),
    ensures
        ({
            let base = spec_base_token(m.tokens, t.pair.0);
            let liq = spec_tick_emits(m, t)[k];
            &&& liq.strategy == m.strategy
            &&& base is Some
            &&& exists|i: int|
                0 <= i < m.positions.len() && m.positions[i].id == liq.position_id
                    && m.positions[i].status == PositionStatus::Opened && (m.positions[i].held_token
                    == base->0 || m.positions[i].owed_token == base->0)
        }),
{
    let m1 = spec_after_price(m, t);
    let base = spec_base_token(m.tokens, t.pair.0);
    lemma_emits_rec_member(m1, base, m.strategy, m1.positions, k);
    let i = choose|i: int|
        0 <= i < m1.positions.len() && spec_tick_eligible(m1, base, m1.positions[i])
            && spec_tick_emits(m, t)[k] == (Liquidation {
            strategy: m.strategy,
            position_id: m1.positions[i].id,
        });
    assert(m1.positions == m.positions);
    assert(m.positions[i].id == spec_tick_emits(m, t)[k].position_id);
}

/// No position carrying this id is still `Opened`.
pub open spec fn no_open_position(m: EngineState, id: u128) -> bool {
    forall|i: int|
        0 <= i < m.positions.len() && m.positions[i].id == id ==> m.positions[i].status
            != PositionStatus::Opened
}

/// No event of the sequence opens a position with this id.
pub open spec fn no_opened_event_for(events: Seq<Event>, id: u128) -> bool {
    forall|k: int|
        0 <= k < events.len() ==> (#[trigger] events[k] matches Event::PositionWasOpened(o)
            ==> o.id != id)
}

/// Unless a position with this id is opened, no step revives it: a
/// position out of `Opened` never returns to it.
proof fn lemma_step_preserves_no_open(m: EngineState, e: Event, id: u128)
    requires
        no_open_position(m, id),
        e matches Event::PositionWasOpened(o) ==> o.id != id,
    ensures
        no_open_position(spec_step(m, e), id),
{
    let s = m.positions;
    let s2 = spec_step(m, e).positions;
    match e {
        Event::PositionWasOpened(o) => {
            let p = spec_position_of(o);
            if crate::liquidator::has_position(s, p.id) {
                let ci = crate::liquidator::position_index(s, p.id);
                assert forall|i: int|
                    0 <= i < s2.len() && s2[i].id == id implies s2[i].status
                    != PositionStatus::Opened by {
                    assert(i != ci);
                    assert(s2[i] == s[i]);
                }
            } else {
                assert forall|i: int|
                    0 <= i < s2.len() && s2[i].id == id implies s2[i].status
                    != PositionStatus::Opened by {
                    assert(i < s.len());
                    assert(s2[i] == s[i]);
                }
            }
        },
        Event::PositionWasClosed(c) => {
            lemma_remove_no_open(s, c.id, id);
        },
        Event::PositionWasLiquidated(l) => {
            lemma_remove_no_open(s, l.id, id);
        },
        Event::Ticker(t) => {
            let m1 = spec_after_price(m, t);
            let base = spec_base_token(m.tokens, t.pair.0);
            assert forall|i: int|
                0 <= i < s2.len() && s2[i].id == id implies s2[i].status
                != PositionStatus::Opened by {
                assert(s2[i] == spec_tick_pos(m1, base, s[i]));
                assert(s[i].id == id);
            }
        },
        _ => {},
    }
}

/// Removal never revives a position.
proof fn lemma_remove_no_open(s: Seq<Position>, removed: u128, id: u128)
    requires
        forall|i: int|
            0 <= i < s.len() && s[i].id == id ==> s[i].status != PositionStatus::Opened,
    ensures
        forall|i: int|
            0 <= i < spec_remove_position(s, removed).len() && spec_remove_position(s, removed)[i].id
                == id ==> spec_remove_position(s, removed)[i].status != PositionStatus::Opened,
{
    let s2 = spec_remove_position(s, removed);
    if crate::liquidator::has_position(s, removed) {
        let ci = crate::liquidator::position_index(s, removed);
        assert forall|i: int|
            0 <= i < s2.len() && s2[i].id == id implies s2[i].status != PositionStatus::Opened by {
            let oi = if i < ci {
                i
            } else {
                i + 1
            };
            assert(s2[i] == s[oi]);
        }
    }
}

/// A tick emits nothing for an id with no open position.
proof fn lemma_tick_no_emit(m: EngineState, t: Ticker, id: u128)
    requires
        no_open_position(m, id),
    ensures
        forall|k: int|
            0 <= k < spec_tick_emits(m, t).len() ==> spec_tick_emits(m, t)[k].position_id != id,
{
    let m1 = spec_after_price(m, t);
    let base = spec_base_token(m.tokens, t.pair.0);
    assert forall|k: int|
        0 <= k < spec_tick_emits(m, t).len() implies spec_tick_emits(m, t)[k].position_id
        != id by {
        lemma_emits_rec_member(m1, base, m.strategy, m1.positions, k);
        let i = choose|i: int|
            0 <= i < m1.positions.len() && spec_tick_eligible(m1, base, m1.positions[i])
                && spec_tick_emits(m, t)[k] == (Liquidation {
                strategy: m.strategy,
                position_id: m1.positions[i].id,
            });
        assert(m1.positions[i] == m.positions[i]);
    }
}

/// While no position with this id is open and none is reopened, no
/// replayed event emits an intent for it.
pub proof fn lemma_no_duplicate_intent(m: EngineState, events: Seq<Event>, id: u128)
    requires
        no_open_position(m, id),
        no_opened_event_for(events, id),
    ensures
        forall|k: int|
            0 <= k < spec_emitted(m, events).len() ==> spec_emitted(m, events)[k].position_id
                != id,
    decreases events.len(),
{
    if events.len() > 0 {
        let e = events[0];
        match e {
            Event::Ticker(t) => {
                lemma_tick_no_emit(m, t, id);
            },
            _ => {},
        }
        assert(e matches Event::PositionWasOpened(o) ==> o.id != id);
        lemma_step_preserves_no_open(m, e, id);
        assert(no_opened_event_for(events.drop_first(), id)) by {
            assert forall|k: int|
                0 <= k < events.drop_first().len() implies (#[trigger] events.drop_first()[k]
            matches Event::PositionWasOpened(o) ==> o.id != id) by {
                assert(events.drop_first()[k] == events[k + 1]);
            }
        }
        lemma_no_duplicate_intent(spec_step(m, e), events.drop_first(), id);
        let head = spec_emits(m, e);
        let rest = spec_emitted(spec_step(m, e), events.drop_first());
        assert forall|k: int|
            0 <= k < spec_emitted(m, events).len() implies spec_emitted(m, events)[k].position_id
            != id by {
            if k < head.len() {
                assert(spec_emitted(m, events)[k] == head[k]);
            } else {
                assert(spec_emitted(m, events)[k] == rest[k - head.len()]);
            }
        }
    }
}

/// After a tick emits an intent for a position, that position stands at
/// `LiquidationRequested`: no position with its id is open any more.
pub proof fn lemma_emitted_position_requested(m: EngineState, t: Ticker, k: int)
    requires
        m.wf(),
        0 <= k < spec_tick_emits(m, t).len(),
    ensures
        no_open_position(spec_step(m, Event::Ticker(t)), spec_tick_emits(m, t)[k].position_id),
{
    let m1 = spec_after_price(m, t);
    let base = spec_base_token(m.tokens, t.pair.0);
    let id = spec_tick_emits(m, t)[k].position_id;
    lemma_emits_rec_member(m1, base, m.strategy, m1.positions, k);
    let i = choose|i: int|
        0 <= i < m1.positions.len() && spec_tick_eligible(m1, base, m1.positions[i])
            && spec_tick_emits(m, t)[k] == (Liquidation {
            strategy: m.strategy,
            position_id: m1.positions[i].id,
        });
    let s2 = spec_step(m, Event::Ticker(t)).positions;
    assert forall|j: int|
        0 <= j < s2.len() && s2[j].id == id implies s2[j].status != PositionStatus::Opened by {
        assert(s2[j] == spec_tick_pos(m1, base, m1.positions[j]));
        assert(m1.positions[j].id == id);
        assert(m1.positions[i].id == id);
        assert(m1.positions[i] == m.positions[i]);
        assert(m1.positions[j] == m.positions[j]);
        assert(j == i);
        assert(spec_tick_eligible(m1, base, m1.positions[j]));
    }
}

/// Duplicate suppression, end to end: once a tick has emitted an intent
/// for a position, no later event emits a second intent for that id until
/// a new `PositionWasOpened` for it arrives.
pub proof fn lemma_no_second_intent(m: EngineState, t: Ticker, rest: Seq<Event>, k: int)
    requires
        m.wf(),
        0 <= k < spec_tick_emits(m, t).len(),
        no_opened_event_for(rest, spec_tick_emits(m, t)[k].position_id),
    ensures
        forall|j: int|
            0 <= j < spec_emitted(spec_step(m, Event::Ticker(t)), rest).len() ==> spec_emitted(
                spec_step(m, Event::Ticker(t)),
                rest,
            )[j].position_id != spec_tick_emits(m, t)[k].position_id,
{
    lemma_emitted_position_requested(m, t, k);
    lemma_no_duplicate_intent(
        spec_step(m, Event::Ticker(t)),
        rest,
        spec_tick_emits(m, t)[k].position_id,
    );
}

} // verus!
