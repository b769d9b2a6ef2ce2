//! Ingestion of market data into the store.
//!
//! Ingestion is a state transition: it writes an observation into the store
//! and reports whether the observation changed anything.  An observation
//! older than what the store holds is stale: it changes nothing and is
//! reported as a warning, never as an error.  A snapshot that lists a
//! contract under another market than the store holds it under breaches the
//! store's integrity and is refused.

use crate::base::{ContractPrice, IntegrityError, PIDataState, StateView, Status};
use crate::market_data::{
    entries_view, ContractData, ContractDataView, DataPacket, MarketData, MarketDataView,
    PIDataPacket, PacketPayload,
};
use std::collections::HashMap;
use vstd::prelude::*;

verus! {

broadcast use vstd::std_specs::hash::group_hash_axioms;

/// What became of one canonical event.
#[derive(Clone, Copy, Debug, PartialEq, Eq, Structural)]
pub enum EventOutcome {
    /// The event was accepted and differs from what the store held.
    Changed,
    /// The event was accepted and repeats what the store held.
    Unchanged,
    /// The event is older than the contract's last accepted observation,
    /// made at `stored_ts`; the contract was left as it was.
    Stale { stored_ts: i64 },
}

/// A record that a stale observation was turned away.
#[derive(Clone, Copy, Debug, PartialEq, Eq, Structural)]
pub enum StaleWarning {
    Contract { id: u64, stored_ts: i64, seen_ts: i64 },
    Market { id: u64, stored_ts: i64, seen_ts: i64 },
}

/// The store with market `id` created, nameless, if it was unknown.
pub open spec fn with_market(s: StateView, id: u64) -> StateView {
    if s.markets.contains_key(id) {
        s
    } else {
        s.add_market(id, Seq::empty())
    }
}

/// The store with the market and the contract of event `e` created,
/// nameless, where they were unknown.
pub open spec fn event_shell(s: StateView, e: DataPacket) -> StateView {
    let s1 = with_market(s, e.market_id());
    if s1.contracts.contains_key(e.id()) {
        s1
    } else {
        s1.add_contract(e.id(), e.market_id(), Seq::empty())
    }
}

/// What becomes of event `e` in store `s`.  The event is stale when it is
/// strictly older than the contract's last accepted observation; an equal
/// timestamp is accepted.
pub open spec fn event_outcome(s: StateView, e: DataPacket) -> EventOutcome {
    let c = event_shell(s, e).contracts[e.id()];
    if c.data_ts > e.timestamp {
        EventOutcome::Stale { stored_ts: c.data_ts }
    } else if c.status != e.status() || c.prices != e.prices() {
        EventOutcome::Changed
    } else {
        EventOutcome::Unchanged
    }
}

/// The store after event `e`.
pub open spec fn ingest_event(s: StateView, e: DataPacket) -> StateView {
    let shell = event_shell(s, e);
    if shell.contracts[e.id()].data_ts > e.timestamp {
        shell
    } else {
        shell.observe(e.id(), e.status(), e.prices(), e.timestamp)
    }
}

/// The warning that event `e` raises in store `s`, if it is stale there.
pub open spec fn event_warning(s: StateView, e: DataPacket) -> Option<StaleWarning> {
    match event_outcome(s, e) {
        EventOutcome::Stale { stored_ts } => Some(
            StaleWarning::Contract { id: e.id(), stored_ts, seen_ts: e.timestamp },
        ),
        _ => None,
    }
}

/// Ingests one canonical event.
pub fn ingest_data_packet(state: &mut PIDataState, data: &DataPacket) -> (outcome: EventOutcome)
    requires
        old(state).wf(),
    ensures
        final(state).wf(),
        final(state)@ == ingest_event(old(state)@, *data),
        outcome == event_outcome(old(state)@, *data),
{
    proof {
        reveal_strlit("");
    }
    match data.payload {
        PacketPayload::PIQuote { id, market_id, status, trade_price, bid_price, ask_price } => {
            if !state.has_market(market_id) {
                let added = state.add_market(market_id, "");
                assert(added.is_ok());
            }
            if !state.has_contract(id) {
                let added = state.add_contract(id, market_id, "");
                assert(added.is_ok());
            }
            let ghost shell = state@;
            assert(shell == event_shell(old(state)@, *data)) by {
                assert(""@ =~= Seq::<char>::empty());
            }
            let new_prices = ContractPrice::new(trade_price, ask_price, bid_price);
            let mut outcome = EventOutcome::Unchanged;
            match state.get_contract_mut(id) {
                Some(contract) => {
                    if contract.data_ts > data.timestamp {
                        outcome = EventOutcome::Stale { stored_ts: contract.data_ts };
                    } else {
                        contract.data_ts = data.timestamp;
                        if contract.status != status {
                            contract.status = status;
                            outcome = EventOutcome::Changed;
                        }
                        if contract.prices != new_prices {
                            contract.prices = new_prices;
                            outcome = EventOutcome::Changed;
                        }
                    }
                },
                None => {},
            }
            proof {
                shell.lemma_observe_wf(id, status, new_prices, data.timestamp);
                if shell.contracts[id].data_ts > data.timestamp {
                    assert(state@.contracts =~= shell.contracts);
                }
            }
            outcome
        },
    }
}

/// Ingesting an event keeps the store's integrity: no contract is lost and
/// none changes its market.
pub proof fn lemma_ingest_event_wf(s: StateView, e: DataPacket)
    requires
        s.wf(),
    ensures
        ingest_event(s, e).wf(),
        forall|id: u64|
            s.contracts.contains_key(id) ==> #[trigger] ingest_event(s, e).contracts.contains_key(
                id,
            ) && ingest_event(s, e).contracts[id].market_id == s.contracts[id].market_id,
{
    let s1 = with_market(s, e.market_id());
    if !s.markets.contains_key(e.market_id()) {
        s.lemma_add_market_wf(e.market_id(), Seq::empty());
    }
    if !s1.contracts.contains_key(e.id()) {
        s1.lemma_add_contract_wf(e.id(), e.market_id(), Seq::empty());
    }
    let shell = event_shell(s, e);
    shell.lemma_observe_wf(e.id(), e.status(), e.prices(), e.timestamp);
}

/// `log` with `w` appended, where there is a warning.
pub open spec fn log_warning(log: Seq<StaleWarning>, w: Option<StaleWarning>) -> Seq<StaleWarning> {
    match w {
        Some(w) => log.push(w),
        None => log,
    }
}

/// Idempotence of event ingestion: an event fed a second time, right after
/// the first, changes nothing.  If the first was accepted the second is
/// found unchanged, and the store stays as the first left it.
pub proof fn lemma_event_twice(s: StateView, e: DataPacket)
    requires
        s.wf(),
    ensures
        event_outcome(ingest_event(s, e), e) != EventOutcome::Changed,
        !(event_outcome(s, e) is Stale) ==> event_outcome(ingest_event(s, e), e)
            == EventOutcome::Unchanged,
        ingest_event(ingest_event(s, e), e) == ingest_event(s, e),
{
    let once = ingest_event(s, e);
    assert(event_shell(once, e) == once);
    let twice = ingest_event(once, e);
    assert(twice.contracts =~= once.contracts);
}

/// Monotonic rejection: an event strictly older than the last observation
/// accepted for its contract is stale.  It leaves every contract as it was,
/// and, where its market is known, the whole store.
pub proof fn lemma_stale_event_rejected(s: StateView, e: DataPacket)
    requires
        s.wf(),
        s.contracts.contains_key(e.id()),
        e.timestamp < s.contracts[e.id()].data_ts,
    ensures
        event_outcome(s, e) == (EventOutcome::Stale { stored_ts: s.contracts[e.id()].data_ts }),
        ingest_event(s, e).contracts == s.contracts,
        s.markets.contains_key(e.market_id()) ==> ingest_event(s, e) == s,
{
}

/// An event whose timestamp equals that of the last accepted observation
/// is not stale.
pub proof fn lemma_equal_time_accepted(s: StateView, e: DataPacket)
    requires
        s.wf(),
        s.contracts.contains_key(e.id()),
        e.timestamp == s.contracts[e.id()].data_ts,
    ensures
        !(event_outcome(s, e) is Stale),
        ingest_event(s, e).contracts[e.id()].prices == e.prices(),
        ingest_event(s, e).contracts[e.id()].status == e.status(),
{
}

/// What `ingest_data_packet` would report for `data`; the store is left
/// untouched.
pub fn classify_data_packet(state: &PIDataState, data: &DataPacket) -> (outcome: EventOutcome)
    ensures
        outcome == event_outcome(state@, *data),
{
    match data.payload {
        PacketPayload::PIQuote { id, market_id, status, trade_price, bid_price, ask_price } => {
            let new_prices = ContractPrice::new(trade_price, ask_price, bid_price);
            let (stored_ts, stored_status, stored_prices) = match state.get_contract(id) {
                Some(contract) => (contract.data_ts, contract.status, contract.prices),
                None => (0i64, Status::Closed, ContractPrice::new(0, 0, 0)),
            };
            if stored_ts > data.timestamp {
                EventOutcome::Stale { stored_ts }
            } else if stored_status != status || stored_prices != new_prices {
                EventOutcome::Changed
            } else {
                EventOutcome::Unchanged
            }
        },
    }
}

/// Whether snapshot entry `c`, listed under market `market_id`, names a
/// contract that the store holds under another market.
pub open spec fn contract_violates(s: StateView, market_id: u64, c: ContractDataView) -> bool {
    s.contracts.contains_key(c.id) && s.contracts[c.id].market_id != market_id
}

/// Why snapshot entry `c` cannot be ingested under market `market_id`, if
/// it cannot: the market is unknown, or the store holds the contract under
/// another market.
pub open spec fn contract_error(s: StateView, market_id: u64, c: ContractDataView) -> Option<
    IntegrityError,
> {
    if !s.markets.contains_key(market_id) {
        Some(IntegrityError::UnknownMarket { id: market_id })
    } else if contract_violates(s, market_id, c) {
        Some(
            IntegrityError::MarketMismatch {
                contract: c.id,
                stored: s.contracts[c.id].market_id,
                claimed: market_id,
            },
        )
    } else {
        None
    }
}

/// Whether snapshot entry `c`, observed at `ts`, is strictly older than the
/// last observation accepted for its contract.  An equal timestamp is not
/// stale, and the first sighting of a contract never is.
pub open spec fn contract_stale(s: StateView, c: ContractDataView, ts: i64) -> bool {
    s.contracts.contains_key(c.id) && ts < s.contracts[c.id].data_ts
}

/// What becomes of snapshot entry `c`, observed at `ts`: it is stale, or it
/// is accepted and changes the store (the contract is unknown, or its status
/// or prices are other than reported), or it is accepted and repeats what
/// the store holds.
pub open spec fn contract_outcome(s: StateView, c: ContractDataView, ts: i64) -> EventOutcome {
    if contract_stale(s, c, ts) {
        EventOutcome::Stale { stored_ts: s.contracts[c.id].data_ts }
    } else if !s.contracts.contains_key(c.id) || s.contracts[c.id].status != c.status
        || s.contracts[c.id].prices != c.prices {
        EventOutcome::Changed
    } else {
        EventOutcome::Unchanged
    }
}

/// Whether snapshot entry `c`, observed at `ts`, changes the store.
pub open spec fn contract_changed(s: StateView, c: ContractDataView, ts: i64) -> bool {
    contract_outcome(s, c, ts) == EventOutcome::Changed
}

/// The warning that snapshot entry `c`, observed at `ts`, raises, if it is
/// stale.
pub open spec fn contract_warning(s: StateView, c: ContractDataView, ts: i64) -> Option<
    StaleWarning,
> {
    if contract_stale(s, c, ts) {
        Some(
            StaleWarning::Contract { id: c.id, stored_ts: s.contracts[c.id].data_ts, seen_ts: ts },
        )
    } else {
        None
    }
}

/// The store after snapshot entry `c`, observed at `ts` under market
/// `market_id`.  A stale entry leaves the store as it was.  Otherwise the
/// contract is created if unknown, and holds what was reported.
pub open spec fn ingest_contract(s: StateView, market_id: u64, c: ContractDataView, ts: i64)
    -> StateView {
    if contract_stale(s, c, ts) {
        s
    } else {
        let base = if s.contracts.contains_key(c.id) {
            s
        } else {
            s.add_contract(c.id, market_id, c.name)
        };
        base.observe(c.id, c.status, c.prices, ts)
    }
}

/// Ingesting a snapshot entry under a known market keeps the store's
/// integrity, keeps every market and its timestamp, keeps every contract
/// under its market, and files a new contract under the entry's market.
pub proof fn lemma_ingest_contract(s: StateView, market_id: u64, c: ContractDataView, ts: i64)
    requires
        s.wf(),
        s.markets.contains_key(market_id),
    ensures
        ingest_contract(s, market_id, c, ts).wf(),
        ingest_contract(s, market_id, c, ts).markets.dom() == s.markets.dom(),
        forall|id: u64| #[trigger]
            ingest_contract(s, market_id, c, ts).contracts.contains_key(id) <==> (id == c.id
                || s.contracts.contains_key(id)),
        forall|id: u64| #[trigger]
            s.contracts.contains_key(id) ==> ingest_contract(
                s,
                market_id,
                c,
                ts,
            ).contracts[id].market_id == s.contracts[id].market_id,
        !s.contracts.contains_key(c.id) ==> ingest_contract(
            s,
            market_id,
            c,
            ts,
        ).contracts[c.id].market_id == market_id,
        forall|mid: u64| #[trigger]
            s.markets.contains_key(mid) ==> ingest_contract(s, market_id, c, ts).markets[mid].data_ts
                == s.markets[mid].data_ts,
{
    let base = if s.contracts.contains_key(c.id) {
        s
    } else {
        s.add_contract(c.id, market_id, c.name)
    };
    if !contract_stale(s, c, ts) {
        if !s.contracts.contains_key(c.id) {
            s.lemma_add_contract_wf(c.id, market_id, c.name);
        }
        base.lemma_observe_wf(c.id, c.status, c.prices, ts);
        assert(base.markets.dom() =~= s.markets.dom());
    }
}

/// Ingests one contract of a snapshot of market `market_id` taken at `ts`;
/// tells what became of it.  An entry strictly older than the contract's
/// last accepted observation is stale and leaves the store as it was.  An
/// entry that breaches integrity is refused and leaves the store as it
/// was.
pub fn ingest_one_contract_data(
    state: &mut PIDataState,
    market_id: u64,
    contract_data: &ContractData,
    ts: i64,
) -> (r: Result<EventOutcome, IntegrityError>)
    requires
        old(state).wf(),
    ensures
        final(state).wf(),
        match r {
            Ok(outcome) => contract_error(old(state)@, market_id, contract_data@).is_none()
                && final(state)@ == ingest_contract(old(state)@, market_id, contract_data@, ts)
                && outcome == contract_outcome(old(state)@, contract_data@, ts),
            Err(e) => contract_error(old(state)@, market_id, contract_data@) == Some(e) && final(state)@ == old(state)@,
        },
{
    let ghost before = state@;
    if !state.has_market(market_id) {
        return Err(IntegrityError::UnknownMarket { id: market_id });
    }
    let mut update = false;
    match state.get_contract(contract_data.id) {
        Some(contract) => {
            if contract.market_id != market_id {
                return Err(
                    IntegrityError::MarketMismatch {
                        contract: contract_data.id,
                        stored: contract.market_id,
                        claimed: market_id,
                    },
                );
            }
            if ts < contract.data_ts {
                return Ok(EventOutcome::Stale { stored_ts: contract.data_ts });
            }
        },
        None => {
            let added = state.add_contract(contract_data.id, market_id, contract_data.name.as_str());
            assert(added.is_ok());
            update = true;
        },
    }
    let new_prices = ContractPrice::new(
        contract_data.trade_price,
        contract_data.ask_price,
        contract_data.bid_price,
    );
    match state.get_contract_mut(contract_data.id) {
        Some(contract) => {
            contract.data_ts = ts;
            if contract.status != contract_data.status {
                contract.status = contract_data.status;
                update = true;
            }
            if contract.prices != new_prices {
                contract.prices = new_prices;
                update = true;
            }
        },
        None => {},
    }
    proof {
        lemma_ingest_contract(before, market_id, contract_data@, ts);
    }
    if update {
        Ok(EventOutcome::Changed)
    } else {
        Ok(EventOutcome::Unchanged)
    }
}

/// The store after the contracts `cs` of a snapshot of market `market_id`
/// taken at `ts`, ingested in order.
pub open spec fn ingest_contracts(
    s: StateView,
    market_id: u64,
    cs: Seq<ContractDataView>,
    ts: i64,
) -> StateView
    decreases cs.len(),
{
    if cs.len() == 0 {
        s
    } else {
        ingest_contract(ingest_contracts(s, market_id, cs.drop_last(), ts), market_id, cs.last(), ts)
    }
}

/// The ids of those of `cs` that changed the store when ingested in order.
pub open spec fn changed_contracts(
    s: StateView,
    market_id: u64,
    cs: Seq<ContractDataView>,
    ts: i64,
) -> Seq<u64>
    decreases cs.len(),
{
    if cs.len() == 0 {
        Seq::empty()
    } else {
        let before_last = ingest_contracts(s, market_id, cs.drop_last(), ts);
        let rest = changed_contracts(s, market_id, cs.drop_last(), ts);
        if contract_changed(before_last, cs.last(), ts) {
            rest.push(cs.last().id)
        } else {
            rest
        }
    }
}

/// The breach that the first of `cs` to name a contract of another market
/// makes, if any does.
pub open spec fn contracts_error(s: StateView, market_id: u64, cs: Seq<ContractDataView>)
    -> Option<IntegrityError>
    decreases cs.len(),
{
    if cs.len() == 0 {
        None
    } else {
        match contracts_error(s, market_id, cs.drop_last()) {
            Some(e) => Some(e),
            None => if contract_violates(s, market_id, cs.last()) {
                Some(
                    IntegrityError::MarketMismatch {
                        contract: cs.last().id,
                        stored: s.contracts[cs.last().id].market_id,
                        claimed: market_id,
                    },
                )
            } else {
                None
            },
        }
    }
}

/// Whether the snapshot of market `m` is strictly older than the last one
/// accepted for that market.  An equal timestamp is not stale.
pub open spec fn market_stale(s: StateView, m: MarketDataView) -> bool {
    s.markets.contains_key(m.id) && m.timestamp < s.markets[m.id].data_ts
}

/// The store with the market of snapshot `m` created, if unknown, with the
/// reported name and status, and marked as observed at the snapshot's time.
pub open spec fn accept_market(s: StateView, m: MarketDataView) -> StateView {
    let base = if s.markets.contains_key(m.id) {
        s
    } else {
        s.add_market(m.id, m.name).set_market_status(m.id, m.status)
    };
    base.stamp_market(m.id, m.timestamp)
}

/// Why the snapshot of market `m` cannot be ingested, if it cannot.  A stale
/// snapshot is turned away before its contracts are looked at.
pub open spec fn market_error(s: StateView, m: MarketDataView) -> Option<IntegrityError> {
    if market_stale(s, m) {
        None
    } else {
        contracts_error(s, m.id, m.contracts)
    }
}

/// The store after the snapshot of market `m`.  A snapshot that is stale or
/// breaches integrity leaves the store as it was.
pub open spec fn ingest_market(s: StateView, m: MarketDataView) -> StateView {
    if market_stale(s, m) || market_error(s, m).is_some() {
        s
    } else {
        ingest_contracts(accept_market(s, m), m.id, m.contracts, m.timestamp)
    }
}

/// The contracts that the snapshot of market `m` changed, in the order of
/// the snapshot.
pub open spec fn market_changes(s: StateView, m: MarketDataView) -> Seq<u64> {
    if market_stale(s, m) || market_error(s, m).is_some() {
        Seq::empty()
    } else {
        changed_contracts(accept_market(s, m), m.id, m.contracts, m.timestamp)
    }
}

/// The warnings that the stale ones among `cs` raise when ingested in
/// order.
pub open spec fn contract_warnings(
    s: StateView,
    market_id: u64,
    cs: Seq<ContractDataView>,
    ts: i64,
) -> Seq<StaleWarning>
    decreases cs.len(),
{
    if cs.len() == 0 {
        Seq::empty()
    } else {
        log_warning(
            contract_warnings(s, market_id, cs.drop_last(), ts),
            contract_warning(ingest_contracts(s, market_id, cs.drop_last(), ts), cs.last(), ts),
        )
    }
}

/// The warnings that the snapshot of market `m` raises: one for the market
/// if the snapshot is stale as a whole, else one for each of its contracts
/// that is stale.
pub open spec fn market_warnings(s: StateView, m: MarketDataView) -> Seq<StaleWarning> {
    if market_stale(s, m) {
        seq![
            StaleWarning::Market {
                id: m.id,
                stored_ts: s.markets[m.id].data_ts,
                seen_ts: m.timestamp,
            },
        ]
    } else if market_error(s, m).is_some() {
        Seq::empty()
    } else {
        contract_warnings(accept_market(s, m), m.id, m.contracts, m.timestamp)
    }
}

/// Monotonic rejection: a snapshot of a market strictly older than the last
/// one accepted for that market leaves the store as it was, changes no
/// contract, and raises a warning.
pub proof fn lemma_stale_market_rejected(s: StateView, m: MarketDataView)
    requires
        s.markets.contains_key(m.id),
        m.timestamp < s.markets[m.id].data_ts,
    ensures
        ingest_market(s, m) == s,
        market_changes(s, m) == Seq::<u64>::empty(),
        market_error(s, m).is_none(),
        market_warnings(s, m) == seq![
            StaleWarning::Market {
                id: m.id,
                stored_ts: s.markets[m.id].data_ts,
                seen_ts: m.timestamp,
            },
        ],
{
}

/// None of `cs` names a contract of another market exactly when
/// `contracts_error` finds no breach.
pub proof fn lemma_contracts_error_none(s: StateView, market_id: u64, cs: Seq<ContractDataView>)
    ensures
        contracts_error(s, market_id, cs).is_none() <==> forall|k: int|
            0 <= k < cs.len() ==> !contract_violates(s, market_id, #[trigger] cs[k]),
    decreases cs.len(),
{
    if cs.len() > 0 {
        lemma_contracts_error_none(s, market_id, cs.drop_last());
        if contracts_error(s, market_id, cs).is_none() {
            assert forall|k: int| 0 <= k < cs.len() implies !contract_violates(
                s,
                market_id,
                #[trigger] cs[k],
            ) by {
                if k < cs.len() - 1 {
                    assert(cs.drop_last()[k] == cs[k]);
                }
            }
        } else if contracts_error(s, market_id, cs.drop_last()).is_none() {
            assert(contract_violates(s, market_id, cs[cs.len() - 1]));
        } else {
            let k = choose|k: int|
                0 <= k < cs.drop_last().len() && contract_violates(
                    s,
                    market_id,
                    #[trigger] cs.drop_last()[k],
                );
            assert(cs.drop_last()[k] == cs[k]);
        }
    }
}

/// A breach found among the first `j` of `cs` is the breach of all of `cs`.
pub proof fn lemma_contracts_error_prefix(
    s: StateView,
    market_id: u64,
    cs: Seq<ContractDataView>,
    j: int,
)
    requires
        0 <= j <= cs.len(),
        contracts_error(s, market_id, cs.take(j)).is_some(),
    ensures
        contracts_error(s, market_id, cs) == contracts_error(s, market_id, cs.take(j)),
    decreases cs.len() - j,
{
    if j < cs.len() {
        assert(cs.take(j + 1).drop_last() =~= cs.take(j));
        lemma_contracts_error_prefix(s, market_id, cs, j + 1);
    } else {
        assert(cs.take(j) =~= cs);
    }
}

/// Ingesting contracts under a known market keeps the store's integrity,
/// and no entry that fits the store before stops fitting it after.
pub proof fn lemma_ingest_contracts(
    s: StateView,
    market_id: u64,
    cs: Seq<ContractDataView>,
    ts: i64,
)
    requires
        s.wf(),
        s.markets.contains_key(market_id),
    ensures
        ingest_contracts(s, market_id, cs, ts).wf(),
        ingest_contracts(s, market_id, cs, ts).markets.dom() == s.markets.dom(),
        forall|c: ContractDataView|
            !contract_violates(s, market_id, c) ==> !#[trigger] contract_violates(
                ingest_contracts(s, market_id, cs, ts),
                market_id,
                c,
            ),
        forall|mid: u64| #[trigger]
            s.markets.contains_key(mid) ==> ingest_contracts(s, market_id, cs, ts).markets[mid].data_ts
                == s.markets[mid].data_ts,
        forall|id: u64|
            s.contracts.contains_key(id) ==> #[trigger] ingest_contracts(
                s,
                market_id,
                cs,
                ts,
            ).contracts.contains_key(id) && ingest_contracts(
                s,
                market_id,
                cs,
                ts,
            ).contracts[id].market_id == s.contracts[id].market_id,
        forall|k: int|
            0 <= k < changed_contracts(s, market_id, cs, ts).len() ==> ingest_contracts(
                s,
                market_id,
                cs,
                ts,
            ).contracts.contains_key(#[trigger] changed_contracts(s, market_id, cs, ts)[k]),
    decreases cs.len(),
{
    if cs.len() > 0 {
        lemma_ingest_contracts(s, market_id, cs.drop_last(), ts);
        let prev = ingest_contracts(s, market_id, cs.drop_last(), ts);
        lemma_ingest_contract(prev, market_id, cs.last(), ts);
        let next = ingest_contracts(s, market_id, cs, ts);
        let changed = changed_contracts(s, market_id, cs, ts);
        let changed_before = changed_contracts(s, market_id, cs.drop_last(), ts);
        assert forall|k: int| 0 <= k < changed.len() implies next.contracts.contains_key(
            #[trigger] changed[k],
        ) by {
            if k < changed_before.len() {
                assert(prev.contracts.contains_key(changed_before[k]));
            }
        }
        assert forall|c: ContractDataView| !contract_violates(s, market_id, c) implies !#[trigger] contract_violates(
            next,
            market_id,
            c,
        ) by {
            assert(!contract_violates(prev, market_id, c));
            if next.contracts.contains_key(c.id) {
                if prev.contracts.contains_key(c.id) {
                } else {
                    assert(c.id == cs.last().id);
                }
            }
        }
    }
}

/// Accepting a market keeps the store's integrity and its contracts.
pub proof fn lemma_accept_market(s: StateView, m: MarketDataView)
    requires
        s.wf(),
    ensures
        accept_market(s, m).wf(),
        accept_market(s, m).markets.contains_key(m.id),
        accept_market(s, m).contracts == s.contracts,
        accept_market(s, m).markets.dom() == s.markets.dom().insert(m.id),
        accept_market(s, m).markets[m.id].data_ts == m.timestamp,
        forall|mid: u64|
            mid != m.id && s.markets.contains_key(mid) ==> #[trigger] accept_market(
                s,
                m,
            ).markets[mid] == s.markets[mid],
{
    if s.markets.contains_key(m.id) {
        s.lemma_market_header_wf(m.id, m.timestamp, m.status);
    } else {
        s.lemma_add_market_wf(m.id, m.name);
        let created = s.add_market(m.id, m.name);
        created.lemma_market_header_wf(m.id, m.timestamp, m.status);
        let named = created.set_market_status(m.id, m.status);
        named.lemma_market_header_wf(m.id, m.timestamp, m.status);
    }
    assert(accept_market(s, m).markets.dom() =~= s.markets.dom().insert(m.id));
}

/// What became of the snapshot of one market.
#[derive(Debug)]
pub struct MarketOutcome {
    /// The contracts that changed, in the order of the snapshot.
    pub changed: Vec<u64>,
    /// The warnings raised: one for the market if the snapshot was stale as
    /// a whole, else one for each stale contract.
    pub warnings: Vec<StaleWarning>,
}

/// Ingests the snapshot of one market.
///
/// A snapshot strictly older than the last one accepted for the market is
/// turned away whole, with a warning.  Otherwise the market is created if
/// unknown, and each contract is created if unknown, compared with what the
/// store holds and updated; a contract whose own last observation is newer
/// than the snapshot is left as it is, with a warning.  A snapshot that lists
/// a contract of another market is refused and leaves the store as it was.
pub fn ingest_one_market_data(state: &mut PIDataState, market_data: &MarketData) -> (r: Result<
    MarketOutcome,
    IntegrityError,
>)
    requires
        old(state).wf(),
    ensures
        final(state).wf(),
        final(state)@ == ingest_market(old(state)@, market_data@),
        match r {
            Ok(outcome) => market_error(old(state)@, market_data@).is_none() && outcome.changed@
                == market_changes(old(state)@, market_data@) && outcome.warnings@
                == market_warnings(old(state)@, market_data@),
            Err(e) => market_error(old(state)@, market_data@) == Some(e),
        },
{
    let ghost before = state@;
    let ghost m = market_data@;
    let market_id = market_data.id;
    let ts = market_data.timestamp;
    let known = match state.get_market(market_id) {
        Some(market) => {
            if ts < market.data_ts {
                let mut warnings: Vec<StaleWarning> = Vec::new();
                warnings.push(
                    StaleWarning::Market { id: market_id, stored_ts: market.data_ts, seen_ts: ts },
                );
                return Ok(MarketOutcome { changed: Vec::new(), warnings });
            }
            true
        },
        None => false,
    };
    let n = market_data.contracts.len();
    let mut i: usize = 0;
    while i < n
        invariant
            i <= n,
            n == market_data.contracts@.len(),
            m == market_data@,
            state@ == before,
            state.wf(),
            market_id == m.id,
            !market_stale(before, m),
            contracts_error(before, market_id, m.contracts.take(i as int)).is_none(),
        decreases n - i,
    {
        let contract_data = &market_data.contracts[i];
        proof {
            assert(m.contracts.take(i + 1).drop_last() =~= m.contracts.take(i as int));
            assert(m.contracts.take(i + 1).last() == contract_data@);
        }
        match state.get_contract(contract_data.id) {
            Some(contract) => {
                if contract.market_id != market_id {
                    proof {
                        lemma_contracts_error_prefix(before, market_id, m.contracts, i + 1);
                    }
                    return Err(
                        IntegrityError::MarketMismatch {
                            contract: contract_data.id,
                            stored: contract.market_id,
                            claimed: market_id,
                        },
                    );
                }
            },
            None => {},
        }
        i = i + 1;
    }
    proof {
        assert(m.contracts.take(n as int) =~= m.contracts);
        lemma_contracts_error_none(before, market_id, m.contracts);
        lemma_accept_market(before, m);
    }
    if !known {
        let added = state.add_market(market_id, market_data.name.as_str());
        assert(added.is_ok());
    }
    match state.get_market_mut(market_id) {
        Some(market) => {
            if !known {
                market.status = market_data.status;
            }
            market.data_ts = ts;
        },
        None => {},
    }
    let ghost accepted = state@;
    proof {
        if known {
            assert(accepted.markets =~= accept_market(before, m).markets);
        } else {
            assert(accepted.markets =~= accept_market(before, m).markets);
        }
        assert(accepted == accept_market(before, m));
    }
    let mut updated_contracts: Vec<u64> = Vec::new();
    let mut warnings: Vec<StaleWarning> = Vec::new();
    let mut j: usize = 0;
    while j < n
        invariant
            j <= n,
            n == market_data.contracts@.len(),
            m == market_data@,
            market_id == m.id,
            ts == m.timestamp,
            accepted.wf(),
            accepted.markets.contains_key(market_id),
            state.wf(),
            state@ == ingest_contracts(accepted, market_id, m.contracts.take(j as int), ts),
            updated_contracts@ == changed_contracts(
                accepted,
                market_id,
                m.contracts.take(j as int),
                ts,
            ),
            warnings@ == contract_warnings(accepted, market_id, m.contracts.take(j as int), ts),
            forall|k: int|
                0 <= k < m.contracts.len() ==> !contract_violates(
                    accepted,
                    market_id,
                    #[trigger] m.contracts[k],
                ),
        decreases n - j,
    {
        let contract_data = &market_data.contracts[j];
        proof {
            assert(m.contracts.take(j + 1).drop_last() =~= m.contracts.take(j as int));
            assert(m.contracts.take(j + 1).last() == contract_data@);
            assert(m.contracts[j as int] == contract_data@);
            lemma_ingest_contracts(accepted, market_id, m.contracts.take(j as int), ts);
        }
        let ingested = ingest_one_contract_data(state, market_id, contract_data, ts);
        match ingested {
            Ok(EventOutcome::Changed) => {
                updated_contracts.push(contract_data.id);
            },
            Ok(EventOutcome::Unchanged) => {},
            Ok(EventOutcome::Stale { stored_ts }) => {
                warnings.push(
                    StaleWarning::Contract { id: contract_data.id, stored_ts, seen_ts: ts },
                );
            },
            Err(_) => {
                assert(false);
            },
        }
        j = j + 1;
    }
    proof {
        assert(m.contracts.take(n as int) =~= m.contracts);
        lemma_ingest_contracts(accepted, market_id, m.contracts, ts);
    }
    Ok(MarketOutcome { changed: updated_contracts, warnings })
}

/// The breach at which ingestion of the markets `ms`, in order, stops, if
/// it does.
pub open spec fn packet_error(s: StateView, ms: Seq<MarketDataView>) -> Option<IntegrityError>
    decreases ms.len(), 0nat,
{
    if ms.len() == 0 {
        None
    } else {
        match packet_error(s, ms.drop_last()) {
            Some(e) => Some(e),
            None => market_error(ingest_markets(s, ms.drop_last()), ms.last()),
        }
    }
}

/// The store after the markets `ms` of a snapshot, ingested in order.  At
/// the first market that breaches integrity ingestion stops: that market and
/// those after it leave the store as it was.
pub open spec fn ingest_markets(s: StateView, ms: Seq<MarketDataView>) -> StateView
    decreases ms.len(), 1nat,
{
    if ms.len() == 0 {
        s
    } else {
        let prev = ingest_markets(s, ms.drop_last());
        if packet_error(s, ms.drop_last()).is_some() {
            prev
        } else {
            ingest_market(prev, ms.last())
        }
    }
}

/// The change-set of a snapshot: for each market that changed, in the order
/// of the snapshot, its id and the contracts that changed.  A market whose
/// list is empty is left out.
pub open spec fn packet_changes(s: StateView, ms: Seq<MarketDataView>) -> Seq<(u64, Seq<u64>)>
    decreases ms.len(),
{
    if ms.len() == 0 {
        Seq::empty()
    } else {
        let rest = packet_changes(s, ms.drop_last());
        let changed = market_changes(ingest_markets(s, ms.drop_last()), ms.last());
        if packet_error(s, ms.drop_last()).is_some() || changed.len() == 0 {
            rest
        } else {
            rest.push((ms.last().id, changed))
        }
    }
}

/// The warnings that a snapshot raises, for stale markets and stale
/// contracts, in the order of the snapshot.
pub open spec fn packet_warnings(s: StateView, ms: Seq<MarketDataView>) -> Seq<StaleWarning>
    decreases ms.len(),
{
    if ms.len() == 0 {
        Seq::empty()
    } else {
        let rest = packet_warnings(s, ms.drop_last());
        if packet_error(s, ms.drop_last()).is_some() {
            rest
        } else {
            rest + market_warnings(ingest_markets(s, ms.drop_last()), ms.last())
        }
    }
}

/// Once ingestion has stopped at a breach among the first `j` markets, the
/// markets after them change neither the breach nor the store.
pub proof fn lemma_packet_error_prefix(s: StateView, ms: Seq<MarketDataView>, j: int)
    requires
        0 <= j <= ms.len(),
        packet_error(s, ms.take(j)).is_some(),
    ensures
        packet_error(s, ms) == packet_error(s, ms.take(j)),
        ingest_markets(s, ms) == ingest_markets(s, ms.take(j)),
    decreases ms.len() - j,
{
    if j < ms.len() {
        assert(ms.take(j + 1).drop_last() =~= ms.take(j));
        lemma_packet_error_prefix(s, ms, j + 1);
    } else {
        assert(ms.take(j) =~= ms);
    }
}

/// Whether the store holds every contract that `changes` lists.
pub open spec fn changes_known(s: StateView, changes: Seq<(u64, Seq<u64>)>) -> bool {
    forall|j: int, k: int|
        0 <= j < changes.len() && 0 <= k < changes[j].1.len() ==> s.contracts.contains_key(
            #[trigger] changes[j].1[k],
        )
}

/// Ingesting one market keeps the store's integrity, keeps every contract
/// under its market, and the store then holds every contract that changed.
pub proof fn lemma_ingest_market_wf(s: StateView, m: MarketDataView)
    requires
        s.wf(),
    ensures
        ingest_market(s, m).wf(),
        forall|id: u64|
            s.contracts.contains_key(id) ==> #[trigger] ingest_market(s, m).contracts.contains_key(
                id,
            ) && ingest_market(s, m).contracts[id].market_id == s.contracts[id].market_id,
        forall|k: int|
            0 <= k < market_changes(s, m).len() ==> ingest_market(s, m).contracts.contains_key(
                #[trigger] market_changes(s, m)[k],
            ),
{
    lemma_accept_market(s, m);
    lemma_ingest_contracts(accept_market(s, m), m.id, m.contracts, m.timestamp);
}

/// Ingesting a snapshot keeps the store's integrity: no contract is lost,
/// none changes its market, and the store then holds every contract of the
/// change-set.
pub proof fn lemma_ingest_markets_wf(s: StateView, ms: Seq<MarketDataView>)
    requires
        s.wf(),
    ensures
        ingest_markets(s, ms).wf(),
        forall|id: u64|
            s.contracts.contains_key(id) ==> #[trigger] ingest_markets(s, ms).contracts.contains_key(
                id,
            ) && ingest_markets(s, ms).contracts[id].market_id == s.contracts[id].market_id,
        changes_known(ingest_markets(s, ms), packet_changes(s, ms)),
    decreases ms.len(),
{
    if ms.len() > 0 {
        lemma_ingest_markets_wf(s, ms.drop_last());
        let prev = ingest_markets(s, ms.drop_last());
        lemma_ingest_market_wf(prev, ms.last());
        let next = ingest_markets(s, ms);
        assert forall|id: u64| s.contracts.contains_key(id) implies #[trigger] next.contracts.contains_key(
            id,
        ) && next.contracts[id].market_id == s.contracts[id].market_id by {
            assert(prev.contracts.contains_key(id));
            assert(ingest_market(prev, ms.last()).contracts.contains_key(id));
        }
        let before_last = packet_changes(s, ms.drop_last());
        let changes = packet_changes(s, ms);
        assert forall|j: int, k: int|
            0 <= j < changes.len() && 0 <= k < changes[j].1.len() implies next.contracts.contains_key(
            #[trigger] changes[j].1[k],
        ) by {
            if j < before_last.len() {
                assert(changes[j] == before_last[j]);
                assert(prev.contracts.contains_key(before_last[j].1[k]));
            } else {
                assert(changes[j].1 == market_changes(prev, ms.last()));
            }
        }
    }
}

/// Whether no id occurs twice among the snapshot entries `cs`.
pub open spec fn distinct_contracts(cs: Seq<ContractDataView>) -> bool {
    forall|i: int, j: int| 0 <= i < j < cs.len() ==> cs[i].id != cs[j].id
}

/// Whether no market occurs twice in the snapshot `ms` and no contract
/// occurs twice within a market.
pub open spec fn distinct_ids(ms: Seq<MarketDataView>) -> bool {
    &&& forall|i: int, j: int| 0 <= i < j < ms.len() ==> ms[i].id != ms[j].id
    &&& forall|i: int| 0 <= i < ms.len() ==> distinct_contracts(#[trigger] ms[i].contracts)
}

/// Whether snapshot entry `c`, observed at `ts` under market `market_id`,
/// has nothing to tell the store: the store holds the contract under that
/// market, and either as reported at `ts` or with a newer observation.
pub open spec fn holds(s: StateView, market_id: u64, c: ContractDataView, ts: i64) -> bool {
    &&& s.contracts.contains_key(c.id)
    &&& s.contracts[c.id].market_id == market_id
    &&& ts < s.contracts[c.id].data_ts || {
        &&& s.contracts[c.id].status == c.status
        &&& s.contracts[c.id].prices == c.prices
        &&& s.contracts[c.id].data_ts == ts
    }
}

/// Whether the snapshot of market `m` has nothing to tell the store: it is
/// stale, or the store holds the market and each of its contracts as
/// reported.
pub open spec fn settled(s: StateView, m: MarketDataView) -> bool {
    ||| market_stale(s, m)
    ||| {
        &&& s.markets.contains_key(m.id)
        &&& s.markets[m.id].data_ts == m.timestamp
        &&& forall|k: int|
            0 <= k < m.contracts.len() ==> holds(s, m.id, #[trigger] m.contracts[k], m.timestamp)
    }
}

/// An entry that has nothing to tell the store changes nothing.
pub proof fn lemma_contracts_noop(s: StateView, market_id: u64, cs: Seq<ContractDataView>, ts: i64)
    requires
        forall|k: int| 0 <= k < cs.len() ==> holds(s, market_id, #[trigger] cs[k], ts),
    ensures
        ingest_contracts(s, market_id, cs, ts) == s,
        changed_contracts(s, market_id, cs, ts) == Seq::<u64>::empty(),
    decreases cs.len(),
{
    if cs.len() > 0 {
        assert forall|k: int| 0 <= k < cs.drop_last().len() implies holds(
            s,
            market_id,
            #[trigger] cs.drop_last()[k],
            ts,
        ) by {
            assert(cs.drop_last()[k] == cs[k]);
        }
        lemma_contracts_noop(s, market_id, cs.drop_last(), ts);
        let c = cs.last();
        assert(holds(s, market_id, cs[cs.len() - 1], ts));
        let r = ingest_contract(s, market_id, c, ts);
        assert(r.contracts =~= s.contracts);
    }
}

/// A snapshot of a market that has nothing to tell the store leaves it as
/// it was, changes no contract and breaches nothing.
pub proof fn lemma_settled_noop(s: StateView, m: MarketDataView)
    requires
        settled(s, m),
    ensures
        ingest_market(s, m) == s,
        market_changes(s, m) == Seq::<u64>::empty(),
        market_error(s, m).is_none(),
{
    if !market_stale(s, m) {
        lemma_contracts_error_none(s, m.id, m.contracts);
        assert forall|k: int| 0 <= k < m.contracts.len() implies !contract_violates(
            s,
            m.id,
            #[trigger] m.contracts[k],
        ) by {
            assert(holds(s, m.id, m.contracts[k], m.timestamp));
        }
        let accepted = accept_market(s, m);
        assert(accepted.markets =~= s.markets);
        lemma_contracts_noop(s, m.id, m.contracts, m.timestamp);
    }
}

/// What ingesting the entries `cs` under a known market does to the
/// contracts: one that no entry names stays as it was; one that an entry
/// names, the ids being distinct, holds what that entry reports or a newer
/// observation, under the market it had or, if it is new, under market
/// `market_id`.
pub proof fn lemma_ingest_contracts_effect(
    s: StateView,
    market_id: u64,
    cs: Seq<ContractDataView>,
    ts: i64,
)
    requires
        s.wf(),
        s.markets.contains_key(market_id),
    ensures
        forall|id: u64|
            (forall|k: int| 0 <= k < cs.len() ==> (#[trigger] cs[k]).id != id) ==> (
            #[trigger] ingest_contracts(s, market_id, cs, ts).contracts.contains_key(id)
                == s.contracts.contains_key(id)) && (s.contracts.contains_key(id)
                ==> ingest_contracts(s, market_id, cs, ts).contracts[id] == s.contracts[id]),
        distinct_contracts(cs) ==> forall|k: int|
            0 <= k < cs.len() ==> {
                let r = ingest_contracts(s, market_id, cs, ts);
                let c = #[trigger] cs[k];
                &&& r.contracts.contains_key(c.id)
                &&& ts < r.contracts[c.id].data_ts || {
                    &&& r.contracts[c.id].status == c.status
                    &&& r.contracts[c.id].prices == c.prices
                    &&& r.contracts[c.id].data_ts == ts
                }
                &&& r.contracts[c.id].market_id == if s.contracts.contains_key(c.id) {
                    s.contracts[c.id].market_id
                } else {
                    market_id
                }
            },
    decreases cs.len(),
{
    if cs.len() > 0 {
        let front = cs.drop_last();
        let last = cs.last();
        lemma_ingest_contracts_effect(s, market_id, front, ts);
        lemma_ingest_contracts(s, market_id, front, ts);
        let prev = ingest_contracts(s, market_id, front, ts);
        let r = ingest_contracts(s, market_id, cs, ts);
        lemma_ingest_contract(prev, market_id, last, ts);
        assert forall|id: u64|
            (forall|k: int| 0 <= k < cs.len() ==> (#[trigger] cs[k]).id != id) implies (
        #[trigger] r.contracts.contains_key(id) == s.contracts.contains_key(id)) && (
        s.contracts.contains_key(id) ==> r.contracts[id] == s.contracts[id]) by {
            assert forall|k: int| 0 <= k < front.len() implies (#[trigger] front[k]).id != id by {
                assert(front[k] == cs[k]);
            }
            assert(cs[cs.len() - 1].id != id);
            assert(prev.contracts.contains_key(id) == s.contracts.contains_key(id));
            if prev.contracts.contains_key(id) {
                assert(r.contracts[id] == prev.contracts[id]);
            }
        }
        if distinct_contracts(cs) {
            assert(distinct_contracts(front)) by {
                assert forall|i: int, j: int| 0 <= i < j < front.len() implies front[i].id
                    != front[j].id by {
                    assert(front[i] == cs[i] && front[j] == cs[j]);
                }
            }
            assert forall|k: int| 0 <= k < cs.len() implies {
                let c = #[trigger] cs[k];
                &&& r.contracts.contains_key(c.id)
                &&& ts < r.contracts[c.id].data_ts || {
                    &&& r.contracts[c.id].status == c.status
                    &&& r.contracts[c.id].prices == c.prices
                    &&& r.contracts[c.id].data_ts == ts
                }
                &&& r.contracts[c.id].market_id == if s.contracts.contains_key(c.id) {
                    s.contracts[c.id].market_id
                } else {
                    market_id
                }
            } by {
                if k < cs.len() - 1 {
                    assert(front[k] == cs[k]);
                    assert(cs[k].id != cs[cs.len() - 1].id);
                } else {
                    assert forall|i: int| 0 <= i < front.len() implies (#[trigger] front[i]).id
                        != last.id by {
                        assert(front[i] == cs[i]);
                    }
                    assert(prev.contracts.contains_key(last.id) == s.contracts.contains_key(
                        last.id,
                    ));
                }
            }
        }
    }
}

/// Right after a snapshot of a market is ingested it has nothing more to
/// tell the store, provided no contract occurs twice in it.
pub proof fn lemma_ingested_is_settled(s: StateView, m: MarketDataView)
    requires
        s.wf(),
        market_error(s, m).is_none(),
        distinct_contracts(m.contracts),
    ensures
        settled(ingest_market(s, m), m),
{
    if !market_stale(s, m) {
        let accepted = accept_market(s, m);
        lemma_accept_market(s, m);
        lemma_ingest_contracts(accepted, m.id, m.contracts, m.timestamp);
        lemma_ingest_contracts_effect(accepted, m.id, m.contracts, m.timestamp);
        lemma_contracts_error_none(s, m.id, m.contracts);
        let r = ingest_market(s, m);
        assert(r.markets.dom().contains(m.id));
        assert forall|k: int| 0 <= k < m.contracts.len() implies holds(
            r,
            m.id,
            #[trigger] m.contracts[k],
            m.timestamp,
        ) by {
            assert(!contract_violates(s, m.id, m.contracts[k]));
        }
    }
}

/// A snapshot of another market, ingested without breach, does not unsettle
/// a market that had nothing to tell the store.
pub proof fn lemma_settled_kept(s: StateView, m: MarketDataView, other: MarketDataView)
    requires
        s.wf(),
        settled(s, m),
        other.id != m.id,
        market_error(s, other).is_none(),
    ensures
        settled(ingest_market(s, other), m),
{
    if !market_stale(s, other) {
        let accepted = accept_market(s, other);
        lemma_accept_market(s, other);
        lemma_ingest_contracts(accepted, other.id, other.contracts, other.timestamp);
        lemma_ingest_contracts_effect(accepted, other.id, other.contracts, other.timestamp);
        lemma_contracts_error_none(s, other.id, other.contracts);
        let r = ingest_market(s, other);
        assert(accepted.markets.contains_key(m.id) == s.markets.contains_key(m.id));
        if s.markets.contains_key(m.id) {
            assert(accepted.markets[m.id] == s.markets[m.id]);
            assert(r.markets.dom().contains(m.id));
            assert(r.markets[m.id].data_ts == s.markets[m.id].data_ts);
        }
        if !market_stale(s, m) {
            assert forall|k: int| 0 <= k < m.contracts.len() implies holds(
                r,
                m.id,
                #[trigger] m.contracts[k],
                m.timestamp,
            ) by {
                let c = m.contracts[k];
                assert(holds(s, m.id, c, m.timestamp));
                assert forall|i: int| 0 <= i < other.contracts.len() implies (
                #[trigger] other.contracts[i]).id != c.id by {
                    assert(!contract_violates(s, other.id, other.contracts[i]));
                }
                let r2 = ingest_contracts(accepted, other.id, other.contracts, other.timestamp);
                assert(r == r2);
                assert(accepted.contracts.contains_key(c.id));
                assert(r2.contracts.contains_key(c.id) == accepted.contracts.contains_key(c.id));
                assert(r2.contracts[c.id] == accepted.contracts[c.id]);
            }
        }
    }
}

/// Once a snapshot is ingested without breach, none of its markets has
/// anything more to tell the store, provided no market occurs twice in it
/// and no contract occurs twice within a market.
pub proof fn lemma_all_settled(s: StateView, ms: Seq<MarketDataView>)
    requires
        s.wf(),
        packet_error(s, ms).is_none(),
        distinct_ids(ms),
    ensures
        forall|i: int| 0 <= i < ms.len() ==> settled(ingest_markets(s, ms), #[trigger] ms[i]),
    decreases ms.len(),
{
    if ms.len() > 0 {
        let front = ms.drop_last();
        let last = ms.last();
        assert(distinct_ids(front)) by {
            assert forall|i: int, j: int| 0 <= i < j < front.len() implies front[i].id
                != front[j].id by {
                assert(front[i] == ms[i] && front[j] == ms[j]);
            }
            assert forall|i: int| 0 <= i < front.len() implies distinct_contracts(
                #[trigger] front[i].contracts,
            ) by {
                assert(front[i] == ms[i]);
            }
        }
        lemma_all_settled(s, front);
        lemma_ingest_markets_wf(s, front);
        let prev = ingest_markets(s, front);
        let r = ingest_markets(s, ms);
        assert(distinct_contracts(ms[ms.len() - 1].contracts));
        lemma_ingested_is_settled(prev, last);
        assert forall|i: int| 0 <= i < ms.len() implies settled(r, #[trigger] ms[i]) by {
            if i < ms.len() - 1 {
                assert(front[i] == ms[i]);
                assert(ms[i].id != ms[ms.len() - 1].id);
                lemma_settled_kept(prev, ms[i], last);
            }
        }
    }
}

/// A snapshot none of whose markets has anything to tell the store leaves
/// it as it was, with an empty change-set and without breach.
pub proof fn lemma_settled_snapshot(s: StateView, ms: Seq<MarketDataView>)
    requires
        forall|i: int| 0 <= i < ms.len() ==> settled(s, #[trigger] ms[i]),
    ensures
        ingest_markets(s, ms) == s,
        packet_changes(s, ms) == Seq::<(u64, Seq<u64>)>::empty(),
        packet_error(s, ms).is_none(),
    decreases ms.len(),
{
    if ms.len() > 0 {
        let front = ms.drop_last();
        assert forall|i: int| 0 <= i < front.len() implies settled(s, #[trigger] front[i]) by {
            assert(front[i] == ms[i]);
        }
        lemma_settled_snapshot(s, front);
        assert(settled(s, ms[ms.len() - 1]));
        lemma_settled_noop(s, ms.last());
    }
}

/// Idempotence of diffing: a snapshot fed a second time, right after the
/// first, yields an empty change-set and leaves the store as the first left
/// it.  This holds of a snapshot that is ingested without breach and in
/// which no market occurs twice and no contract occurs twice within a
/// market.
pub proof fn lemma_snapshot_twice(s: StateView, ms: Seq<MarketDataView>)
    requires
        s.wf(),
        packet_error(s, ms).is_none(),
        distinct_ids(ms),
    ensures
        packet_changes(ingest_markets(s, ms), ms) == Seq::<(u64, Seq<u64>)>::empty(),
        packet_error(ingest_markets(s, ms), ms).is_none(),
        ingest_markets(ingest_markets(s, ms), ms) == ingest_markets(s, ms),
{
    lemma_all_settled(s, ms);
    lemma_settled_snapshot(ingest_markets(s, ms), ms);
}

/// The markets of the entries `entries`, without their keys.
pub open spec fn values(entries: Seq<(u64, MarketDataView)>) -> Seq<MarketDataView> {
    Seq::new(entries.len(), |i: int| entries[i].1)
}

/// The change-set of a snapshot walked as `entries`: for each market that
/// changed, in the order of the walk, the key under which the snapshot holds
/// it and the contracts that changed.  A market whose list is empty is left
/// out.
pub open spec fn keyed_changes(s: StateView, entries: Seq<(u64, MarketDataView)>) -> Seq<
    (u64, Seq<u64>),
>
    decreases entries.len(),
{
    if entries.len() == 0 {
        Seq::empty()
    } else {
        let rest = keyed_changes(s, entries.drop_last());
        let before = values(entries.drop_last());
        let changed = market_changes(ingest_markets(s, before), entries.last().1);
        if packet_error(s, before).is_some() || changed.len() == 0 {
            rest
        } else {
            rest.push((entries.last().0, changed))
        }
    }
}

/// The change-set by key lists the same contracts as the change-set by
/// market id, market for market.
pub proof fn lemma_keyed_changes(s: StateView, entries: Seq<(u64, MarketDataView)>)
    ensures
        keyed_changes(s, entries).len() == packet_changes(s, values(entries)).len(),
        forall|j: int|
            0 <= j < keyed_changes(s, entries).len() ==> (#[trigger] keyed_changes(
                s,
                entries,
            )[j]).1 == packet_changes(s, values(entries))[j].1,
    decreases entries.len(),
{
    if entries.len() > 0 {
        lemma_keyed_changes(s, entries.drop_last());
        assert(values(entries).drop_last() =~= values(entries.drop_last()));
        assert(values(entries).last() == entries.last().1);
    } else {
        assert(values(entries) =~= Seq::<MarketDataView>::empty());
    }
}

/// The change-set `changes` as a map from market to changed contracts.
pub open spec fn changes_map(changes: Seq<(u64, Seq<u64>)>) -> Map<u64, Seq<u64>>
    decreases changes.len(),
{
    if changes.len() == 0 {
        Map::empty()
    } else {
        changes_map(changes.drop_last()).insert(changes.last().0, changes.last().1)
    }
}

/// What a map of changed contracts holds.
pub open spec fn lists_view(m: Map<u64, Vec<u64>>) -> Map<u64, Seq<u64>> {
    m.map_values(|v: Vec<u64>| v@)
}

/// Whether no key occurs twice in the walk `walk`.
pub open spec fn distinct_keys(walk: Seq<(u64, MarketDataView)>) -> bool {
    forall|i: int, j: int| 0 <= i < j < walk.len() ==> walk[i].0 != walk[j].0
}

/// The entries of the map `m` of changed contracts for the markets of the
/// walk `walk`, in the order of the walk.
pub open spec fn in_walk_order(walk: Seq<(u64, MarketDataView)>, m: Map<u64, Seq<u64>>) -> Seq<
    (u64, Seq<u64>),
>
    decreases walk.len(),
{
    if walk.len() == 0 {
        Seq::empty()
    } else {
        let rest = in_walk_order(walk.drop_last(), m);
        let key = walk.last().0;
        if m.contains_key(key) {
            rest.push((key, m[key]))
        } else {
            rest
        }
    }
}

/// The map of a change-set holds exactly the markets that the change-set
/// lists, and each of them is a key of the walk.
pub proof fn lemma_changes_map_keys(s: StateView, walk: Seq<(u64, MarketDataView)>)
    ensures
        forall|k: u64| #[trigger]
            changes_map(keyed_changes(s, walk)).contains_key(k) ==> exists|i: int|
                0 <= i < walk.len() && (#[trigger] walk[i]).0 == k,
    decreases walk.len(),
{
    if walk.len() > 0 {
        lemma_changes_map_keys(s, walk.drop_last());
        let front = walk.drop_last();
        let rest = keyed_changes(s, front);
        let all = keyed_changes(s, walk);
        assert forall|k: u64| #[trigger] changes_map(all).contains_key(k) implies exists|i: int|
            0 <= i < walk.len() && (#[trigger] walk[i]).0 == k by {
            if all == rest {
                let i = choose|i: int| 0 <= i < front.len() && (#[trigger] front[i]).0 == k;
                assert(walk[i].0 == k);
            } else {
                assert(all.drop_last() =~= rest);
                if k == walk.last().0 {
                    assert(walk[walk.len() - 1].0 == k);
                } else {
                    assert(changes_map(rest).contains_key(k));
                    let i = choose|i: int| 0 <= i < front.len() && (#[trigger] front[i]).0 == k;
                    assert(walk[i].0 == k);
                }
            }
        }
    }
}

/// Two maps that agree on the keys of a walk give the same entries in the
/// order of the walk.
pub proof fn lemma_in_walk_order_agree(
    walk: Seq<(u64, MarketDataView)>,
    a: Map<u64, Seq<u64>>,
    b: Map<u64, Seq<u64>>,
)
    requires
        forall|i: int|
            0 <= i < walk.len() ==> a.contains_key((#[trigger] walk[i]).0) == b.contains_key(
                walk[i].0,
            ) && (a.contains_key(walk[i].0) ==> a[walk[i].0] == b[walk[i].0]),
    ensures
        in_walk_order(walk, a) == in_walk_order(walk, b),
    decreases walk.len(),
{
    if walk.len() > 0 {
        let front = walk.drop_last();
        assert forall|i: int| 0 <= i < front.len() implies a.contains_key(
            (#[trigger] front[i]).0,
        ) == b.contains_key(front[i].0) && (a.contains_key(front[i].0) ==> a[front[i].0]
            == b[front[i].0]) by {
            assert(front[i] == walk[i]);
        }
        lemma_in_walk_order_agree(front, a, b);
        assert(walk[walk.len() - 1] == walk.last());
    }
}

/// Read in the order of the walk, the map of a change-set gives the
/// change-set back, provided no key occurs twice in the walk.
pub proof fn lemma_in_walk_order(s: StateView, walk: Seq<(u64, MarketDataView)>)
    requires
        distinct_keys(walk),
    ensures
        in_walk_order(walk, changes_map(keyed_changes(s, walk))) == keyed_changes(s, walk),
    decreases walk.len(),
{
    if walk.len() > 0 {
        let front = walk.drop_last();
        let key = walk.last().0;
        assert(distinct_keys(front)) by {
            assert forall|i: int, j: int| 0 <= i < j < front.len() implies front[i].0
                != front[j].0 by {
                assert(front[i] == walk[i] && front[j] == walk[j]);
            }
        }
        lemma_in_walk_order(s, front);
        lemma_changes_map_keys(s, front);
        let rest = keyed_changes(s, front);
        let all = keyed_changes(s, walk);
        let before = changes_map(rest);
        let after = changes_map(all);
        assert(!before.contains_key(key)) by {
            if before.contains_key(key) {
                let i = choose|i: int| 0 <= i < front.len() && (#[trigger] front[i]).0 == key;
                assert(walk[i].0 == walk[walk.len() - 1].0);
            }
        }
        if all != rest {
            assert(all.drop_last() =~= rest);
            assert(all.last().0 == key);
        }
        assert forall|i: int| 0 <= i < front.len() implies after.contains_key(
            (#[trigger] front[i]).0,
        ) == before.contains_key(front[i].0) && (after.contains_key(front[i].0)
            ==> after[front[i].0] == before[front[i].0]) by {
            assert(front[i] == walk[i]);
            assert(walk[i].0 != walk[walk.len() - 1].0);
        }
        lemma_in_walk_order_agree(front, after, before);
    }
}

/// What became of a raw snapshot.
#[derive(Debug)]
pub struct SnapshotDelta {
    /// For each market that changed, under the key under which the snapshot
    /// holds it, the contracts that changed.
    pub updated: HashMap<u64, Vec<u64>>,
    /// The warnings raised by stale markets.
    pub warnings: Vec<StaleWarning>,
}

/// Ingests a raw snapshot, market by market in the order in which its map
/// is walked, and reports which contracts of which markets changed.
/// Ingestion stops at the first market that breaches integrity; the markets
/// before it stay ingested.
pub fn ingest_data(state: &mut PIDataState, data: &PIDataPacket) -> (r: Result<
    SnapshotDelta,
    IntegrityError,
>)
    requires
        old(state).wf(),
    ensures
        final(state).wf(),
        final(state)@ == ingest_markets(old(state)@, values(data.walk())),
        match r {
            Ok(delta) => packet_error(old(state)@, values(data.walk())).is_none() && lists_view(
                delta.updated@,
            ) == changes_map(keyed_changes(old(state)@, data.walk())) && delta.warnings@
                == packet_warnings(old(state)@, values(data.walk())) && distinct_keys(data.walk()),
            Err(e) => packet_error(old(state)@, values(data.walk())) == Some(e),
        },
{
    let ghost before = state@;
    let ghost walk = data.walk();
    let ghost ms = values(data.walk());
    let entries = data.entries();
    let mut updated: HashMap<u64, Vec<u64>> = HashMap::new();
    let mut warnings: Vec<StaleWarning> = Vec::new();
    let n = entries.len();
    let mut i: usize = 0;
    proof {
        assert(lists_view(updated@) =~= Map::empty());
        assert(distinct_keys(walk));
    }
    while i < n
        invariant
            i <= n,
            n == entries@.len(),
            walk == data.walk(),
            walk == entries_view(entries@),
            ms == values(walk),
            before == old(state)@,
            state.wf(),
            state@ == ingest_markets(before, ms.take(i as int)),
            packet_error(before, ms.take(i as int)).is_none(),
            lists_view(updated@) == changes_map(keyed_changes(before, walk.take(i as int))),
            distinct_keys(walk),
            warnings@ == packet_warnings(before, ms.take(i as int)),
        decreases n - i,
    {
        let key = entries[i].0;
        let market_data = entries[i].1;
        proof {
            assert(ms.take(i + 1).drop_last() =~= ms.take(i as int));
            assert(ms.take(i + 1).last() == market_data@);
            assert(walk.take(i + 1).drop_last() =~= walk.take(i as int));
            assert(walk.take(i + 1).last() == (key, market_data@));
            assert(values(walk.take(i as int)) =~= ms.take(i as int));
        }
        match ingest_one_market_data(state, market_data) {
            Ok(outcome) => {
                let ghost shown = lists_view(updated@);
                let ghost listed = keyed_changes(before, walk.take(i as int));
                let mut raised = outcome.warnings;
                warnings.append(&mut raised);
                if outcome.changed.len() > 0 {
                    let ghost changed = outcome.changed@;
                    updated.insert(key, outcome.changed);
                    proof {
                        assert(lists_view(updated@) =~= shown.insert(key, changed));
                        let now = keyed_changes(before, walk.take(i + 1));
                        assert(now == listed.push((key, changed)));
                        assert(now.drop_last() =~= listed);
                    }
                }
            },
            Err(e) => {
                proof {
                    let prefix = ms.take(i + 1);
                    assert(packet_error(before, prefix.drop_last()).is_none());
                    assert(packet_error(before, prefix) == Some(e));
                    assert(ingest_markets(before, prefix) == state@);
                    lemma_packet_error_prefix(before, ms, i + 1);
                }
                return Err(e);
            },
        }
        i = i + 1;
    }
    proof {
        assert(ms.take(n as int) =~= ms);
        assert(walk.take(n as int) =~= walk);
    }
    Ok(SnapshotDelta { updated, warnings })
}

} // verus!
