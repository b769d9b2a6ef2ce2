//! The caches: stages that ingest market data into a store of their own
//! and hand on what changed.

use crate::actor::{ActorBuffer, Listener, Provider};
use crate::base::{IntegrityError, PIDataState, StateView};
use crate::market_data::ingest::{
    changes_known, changes_map, classify_data_packet, distinct_ids, event_outcome, event_warning,
    in_walk_order, ingest_data, ingest_data_packet, ingest_event, ingest_markets, keyed_changes,
    lemma_in_walk_order, lists_view,
    lemma_event_twice, lemma_ingest_markets_wf, lemma_keyed_changes, lemma_snapshot_twice,
    lemma_stale_event_rejected, lemma_stale_market_rejected, log_warning, market_changes,
    market_warnings,
    packet_changes, packet_error, packet_warnings, values, EventOutcome, StaleWarning,
};
use crate::market_data::{DataPacket, MarketData, MarketDataView, PIDataPacket, PacketPayload};
use std::collections::{HashMap, HashSet};
use vstd::prelude::*;

verus! {

broadcast use vstd::std_specs::hash::group_hash_axioms;

/// The event that reports contract `id` of market `market_id` as the store
/// holds it: the contract's status and prices, at the time of its last
/// accepted observation.
pub open spec fn quote_of(s: StateView, market_id: u64, id: u64) -> DataPacket {
    let c = s.contracts[id];
    DataPacket {
        timestamp: c.data_ts,
        payload: PacketPayload::PIQuote {
            id: c.id,
            market_id,
            status: c.status,
            trade_price: c.prices.trade_price,
            bid_price: c.prices.bid_price,
            ask_price: c.prices.ask_price,
        },
    }
}

/// One event for each contract that `changes` lists, in order.
pub open spec fn packet_events(s: StateView, changes: Seq<(u64, Seq<u64>)>) -> Seq<DataPacket>
    decreases changes.len(),
{
    if changes.len() == 0 {
        Seq::empty()
    } else {
        let (market_id, ids) = changes.last();
        packet_events(s, changes.drop_last()) + Seq::new(
            ids.len(),
            |k: int| quote_of(s, market_id, ids[k]),
        )
    }
}

/// Synthesizes one event for each contract that `updated` lists, from what
/// the store holds: market by market in the order in which the snapshot
/// `data` is walked, contract by contract in the order of the list.
pub fn collect_events(
    state: &PIDataState,
    data: &PIDataPacket,
    updated: &HashMap<u64, Vec<u64>>,
) -> (events: Vec<DataPacket>)
    requires
        state.wf(),
        changes_known(state@, in_walk_order(data.walk(), lists_view(updated@))),
    ensures
        events@ == packet_events(state@, in_walk_order(data.walk(), lists_view(updated@))),
{
    let ghost walk = data.walk();
    let ghost lists = lists_view(updated@);
    let ghost changes = in_walk_order(walk, lists);
    let entries = data.entries();
    let mut events: Vec<DataPacket> = Vec::new();
    let mut j: usize = 0;
    proof {
        assert(walk.take(0) =~= Seq::<(u64, MarketDataView)>::empty());
    }
    while j < entries.len()
        invariant
            j <= entries@.len(),
            walk == data.walk(),
            walk == crate::market_data::entries_view(entries@),
            lists == lists_view(updated@),
            changes == in_walk_order(walk, lists),
            changes_known(state@, changes),
            events@ == packet_events(state@, in_walk_order(walk.take(j as int), lists)),
            forall|i: int|
                0 <= i < in_walk_order(walk.take(j as int), lists).len() ==> #[trigger] changes[i]
                    == in_walk_order(walk.take(j as int), lists)[i],
            in_walk_order(walk.take(j as int), lists).len() <= changes.len(),
        decreases entries.len() - j,
    {
        let market_id = entries[j].0;
        let ghost done = events@;
        let ghost listed = in_walk_order(walk.take(j as int), lists);
        proof {
            assert(walk.take(j + 1).drop_last() =~= walk.take(j as int));
            assert(walk.take(j + 1).last().0 == market_id);
            lemma_in_walk_order_prefix(walk, lists, j + 1);
        }
        match updated.get(&market_id) {
            Some(ids) => {
                assert(lists[market_id] == ids@);
                assert(in_walk_order(walk.take(j + 1), lists) == listed.push((market_id, ids@)));
                assert(changes[listed.len() as int] == (market_id, ids@));
                let mut k: usize = 0;
                while k < ids.len()
                    invariant
                        k <= ids.len(),
                        changes[listed.len() as int] == (market_id, ids@),
                        listed.len() < changes.len(),
                        changes_known(state@, changes),
                        events@ == done + Seq::new(
                            k as nat,
                            |i: int| quote_of(state@, market_id, ids@[i]),
                        ),
                    decreases ids.len() - k,
                {
                    let id = ids[k];
                    assert(state@.contracts.contains_key(changes[listed.len() as int].1[k as int]));
                    match state.get_contract(id) {
                        Some(contract) => {
                            events.push(
                                DataPacket {
                                    timestamp: contract.data_ts,
                                    payload: PacketPayload::PIQuote {
                                        id: contract.id,
                                        market_id,
                                        status: contract.status,
                                        trade_price: contract.prices.trade_price,
                                        bid_price: contract.prices.bid_price,
                                        ask_price: contract.prices.ask_price,
                                    },
                                },
                            );
                        },
                        None => {},
                    }
                    k = k + 1;
                    assert(events@ =~= done + Seq::new(
                        k as nat,
                        |i: int| quote_of(state@, market_id, ids@[i]),
                    ));
                }
                proof {
                    let now = listed.push((market_id, ids@));
                    assert(now.drop_last() =~= listed);
                }
            },
            None => {},
        }
        j = j + 1;
    }
    proof {
        assert(walk.take(entries@.len() as int) =~= walk);
    }
    events
}

/// The entries read for the first `j` markets of a walk are the first of
/// the entries read for the whole walk.
pub proof fn lemma_in_walk_order_prefix(
    walk: Seq<(u64, MarketDataView)>,
    m: Map<u64, Seq<u64>>,
    j: int,
)
    requires
        0 <= j <= walk.len(),
    ensures
        in_walk_order(walk.take(j), m).len() <= in_walk_order(walk, m).len(),
        forall|i: int|
            0 <= i < in_walk_order(walk.take(j), m).len() ==> #[trigger] in_walk_order(walk, m)[i]
                == in_walk_order(walk.take(j), m)[i],
    decreases walk.len() - j,
{
    if j < walk.len() {
        lemma_in_walk_order_prefix(walk, m, j + 1);
        assert(walk.take(j + 1).drop_last() =~= walk.take(j));
    } else {
        assert(walk.take(j) =~= walk);
    }
}

/// The ids of the markets that `changes` lists.
pub open spec fn changed_ids(changes: Seq<(u64, Seq<u64>)>) -> Set<u64> {
    Set::new(|id: u64| exists|j: int| 0 <= j < changes.len() && (#[trigger] changes[j]).0 == id)
}

/// The map of a change-set holds exactly the markets that the change-set
/// lists.
pub proof fn lemma_changes_map_dom(changes: Seq<(u64, Seq<u64>)>)
    ensures
        changes_map(changes).dom() == changed_ids(changes),
    decreases changes.len(),
{
    if changes.len() > 0 {
        let front = changes.drop_last();
        lemma_changes_map_dom(front);
        assert forall|id: u64| changes_map(changes).dom().contains(id) <==> changed_ids(
            changes,
        ).contains(id) by {
            if changed_ids(changes).contains(id) {
                let j = choose|j: int| 0 <= j < changes.len() && (#[trigger] changes[j]).0 == id;
                if j < front.len() {
                    assert(front[j].0 == id);
                    assert(changed_ids(front).contains(id));
                }
            }
            if changes_map(changes).dom().contains(id) && id != changes.last().0 {
                assert(changed_ids(front).contains(id));
                let j = choose|j: int| 0 <= j < front.len() && (#[trigger] front[j]).0 == id;
                assert(changes[j].0 == id);
            }
            if id == changes.last().0 {
                assert(changes[changes.len() - 1].0 == id);
            }
        }
        assert(changes_map(changes).dom() =~= changed_ids(changes));
    } else {
        assert(changes_map(changes).dom() =~= changed_ids(changes));
    }
}

/// A copy of the snapshot `data` pruned to the markets whose keys `updated`
/// holds, each with its full contract list.
pub fn filter_changed(data: &PIDataPacket, updated: &HashMap<u64, Vec<u64>>) -> (filtered:
    PIDataPacket)
    ensures
        filtered@ == data@.restrict(updated@.dom()),
{
    let entries = data.entries();
    let mut kept: HashMap<u64, MarketData> = HashMap::new();
    let mut i: usize = 0;
    while i < entries.len()
        invariant
            i <= entries@.len(),
            forall|k: int|
                0 <= k < entries@.len() ==> data@.contains_key((#[trigger] entries@[k]).0)
                    && data@[entries@[k].0] == entries@[k].1@,
            forall|id: u64| #[trigger]
                kept@.contains_key(id) ==> updated@.contains_key(id) && data@.contains_key(id)
                    && kept@[id]@ == data@[id],
            forall|k: int|
                0 <= k < i && updated@.contains_key((#[trigger] entries@[k]).0)
                    ==> kept@.contains_key(entries@[k].0),
        decreases entries.len() - i,
    {
        let key = entries[i].0;
        let market_data = entries[i].1;
        assert(data@[entries@[i as int].0] == entries@[i as int].1@);
        if updated.contains_key(&key) {
            kept.insert(key, market_data.clone());
        }
        i = i + 1;
    }
    let filtered = PIDataPacket { market_updates: kept };
    proof {
        let pruned = data@.restrict(updated@.dom());
        assert forall|id: u64| filtered@.contains_key(id) <==> pruned.contains_key(id) by {
            if pruned.contains_key(id) {
                assert(data@.contains_key(id));
                let k = choose|k: int| 0 <= k < entries@.len() && (#[trigger] entries@[k]).0 == id;
                assert(updated@.contains_key(entries@[k].0));
                assert(kept@.contains_key(entries@[k].0));
            }
            if filtered@.contains_key(id) {
                assert(kept@.contains_key(id));
            }
        }
        assert forall|id: u64| filtered@.contains_key(id) implies filtered@[id] == pruned[id] by {
            assert(kept@.contains_key(id));
        }
        assert(filtered@ =~= pruned);
    }
    filtered
}

/// What a cache holds: its store, the elements waiting in its output
/// buffer, that buffer's capacity, and the warnings not yet collected.
pub struct CacheModel<O> {
    pub state: StateView,
    pub output: Seq<O>,
    pub capacity: nat,
    pub warnings: Seq<StaleWarning>,
}

/// What an event cache in state `m` makes of event `e`: the event is
/// ingested, handed on if it changed the store, and recorded in a warning if
/// it was stale.
pub open spec fn event_cache_next(m: CacheModel<DataPacket>, e: DataPacket) -> CacheModel<
    DataPacket,
> {
    CacheModel {
        state: ingest_event(m.state, e),
        output: if event_outcome(m.state, e) == EventOutcome::Changed {
            m.output.push(e)
        } else {
            m.output
        },
        capacity: m.capacity,
        warnings: log_warning(m.warnings, event_warning(m.state, e)),
    }
}

/// Idempotence of the event cache: an event fed a second time, right after
/// the first, is not handed on again and leaves the store as the first left
/// it.
pub proof fn lemma_event_cache_twice(m: CacheModel<DataPacket>, e: DataPacket)
    requires
        m.state.wf(),
    ensures
        event_cache_next(event_cache_next(m, e), e).output == event_cache_next(m, e).output,
        event_cache_next(event_cache_next(m, e), e).state == event_cache_next(m, e).state,
{
    lemma_event_twice(m.state, e);
}

/// Monotonic rejection in the event cache: an event strictly older than the
/// last observation accepted for its contract is not handed on, leaves every
/// contract as it was, and is recorded in a warning.
pub proof fn lemma_event_cache_rejects_stale(m: CacheModel<DataPacket>, e: DataPacket)
    requires
        m.state.wf(),
        m.state.contracts.contains_key(e.id()),
        e.timestamp < m.state.contracts[e.id()].data_ts,
    ensures
        event_cache_next(m, e).output == m.output,
        event_cache_next(m, e).state.contracts == m.state.contracts,
        event_cache_next(m, e).warnings == m.warnings.push(
            StaleWarning::Contract {
                id: e.id(),
                stored_ts: m.state.contracts[e.id()].data_ts,
                seen_ts: e.timestamp,
            },
        ),
{
    lemma_stale_event_rejected(m.state, e);
}

/// Cache that takes canonical events and hands on those that changed the
/// store.
pub struct MarketDataCache {
    pub state: PIDataState,
    output: ActorBuffer<DataPacket>,
    warnings: Vec<StaleWarning>,
}

impl View for MarketDataCache {
    type V = CacheModel<DataPacket>;

    closed spec fn view(&self) -> CacheModel<DataPacket> {
        CacheModel {
            state: self.state@,
            output: self.output@,
            capacity: self.output.capacity(),
            warnings: self.warnings@,
        }
    }
}

impl MarketDataCache {
    /// Validity: the store keeps its integrity and the output buffer is
    /// well-formed.
    pub closed spec fn wf(&self) -> bool {
        &&& self.state.wf()
        &&& self.output.wf()
    }

    /// The store.
    pub fn state_ref(&self) -> (s: &PIDataState)
        requires
            self.wf(),
        ensures
            s@ == self@.state,
            s.wf(),
    {
        &self.state
    }

    /// The cache's view agrees with its output buffer, and the cache is
    /// valid in both of its roles exactly when it is well-formed.
    pub proof fn lemma_view(&self)
        ensures
            self@.output == self.output()@,
            self@.capacity == self.output().capacity(),
            self.wf() ==> self.output().wf() && self@.state.wf() && self.provider_inv()
                && self.listener_inv()
                && self@.output.len() <= self@.capacity,
            self.provider_inv() ==> self.wf(),
            self.listener_inv() ==> self.wf(),
    {
        if self.wf() {
            self.output.lemma_len();
        }
    }

    /// With another output buffer the cache holds the same store and
    /// warnings.
    pub proof fn lemma_with_output_view(&self, b: ActorBuffer<DataPacket>)
        ensures
            self.with_output(b)@ == (CacheModel { output: b@, capacity: b.capacity(), ..self@ }),
            self.wf() && b.wf() ==> self.with_output(b).wf(),
    {
    }

    /// A cache over `state` with an empty output buffer of the default
    /// capacity.
    pub fn new(state: PIDataState) -> (c: Self)
        requires
            state.wf(),
        ensures
            c.wf(),
            c@ == (CacheModel::<DataPacket> {
                state: state@,
                output: Seq::empty(),
                capacity: crate::actor::DEFAULT_BUFFER_SIZE as nat,
                warnings: Seq::empty(),
            }),
    {
        MarketDataCache { state, output: ActorBuffer::new(), warnings: Vec::new() }
    }

    /// Hands over the warnings raised since the last call.
    pub fn take_warnings(&mut self) -> (w: Vec<StaleWarning>)
        requires
            old(self).wf(),
        ensures
            final(self).wf(),
            w@ == old(self)@.warnings,
            final(self)@ == (CacheModel { warnings: Seq::empty(), ..old(self)@ }),
    {
        let mut w: Vec<StaleWarning> = Vec::new();
        std::mem::swap(&mut w, &mut self.warnings);
        w
    }

    /// Whether `process` can take `data` now: it can unless the event would
    /// be handed on and the output buffer is full.
    pub fn is_ready(&self, data: &DataPacket) -> (r: bool)
        requires
            self.wf(),
        ensures
            r == <Self as Listener<DataPacket>>::ready(self@, *data),
    {
        proof {
            self.output.lemma_len();
        }
        !self.output.is_full() || classify_data_packet(&self.state, data) != EventOutcome::Changed
    }
}

impl Listener<DataPacket> for MarketDataCache {
    type Model = CacheModel<DataPacket>;

    open spec fn listener_inv(&self) -> bool {
        self.wf()
    }

    open spec fn model(&self) -> CacheModel<DataPacket> {
        self@
    }

    open spec fn ready(m: CacheModel<DataPacket>, input: DataPacket) -> bool {
        event_outcome(m.state, input) == EventOutcome::Changed ==> m.output.len() < m.capacity
    }

    open spec fn next(m: CacheModel<DataPacket>, input: DataPacket) -> CacheModel<DataPacket> {
        event_cache_next(m, input)
    }

    open spec fn acts(m: CacheModel<DataPacket>, input: DataPacket) -> bool {
        event_outcome(m.state, input) == EventOutcome::Changed
    }

    /// Ingests the event and hands it on if it changed the store.
    fn process(&mut self, data: &DataPacket) -> (acted: bool) {
        let outcome = ingest_data_packet(&mut self.state, data);
        match outcome {
            EventOutcome::Changed => {
                let pushed = self.output.push(*data);
                assert(pushed.is_ok());
                true
            },
            EventOutcome::Unchanged => false,
            EventOutcome::Stale { stored_ts } => {
                self.warnings.push(
                    StaleWarning::Contract { id: data.id_of(), stored_ts, seen_ts: data.timestamp },
                );
                false
            },
        }
    }
}

impl Provider<DataPacket> for MarketDataCache {
    open spec fn provider_inv(&self) -> bool {
        self.wf()
    }

    closed spec fn output(&self) -> ActorBuffer<DataPacket> {
        self.output
    }

    closed spec fn with_output(&self, buf: ActorBuffer<DataPacket>) -> Self {
        MarketDataCache { output: buf, ..*self }
    }


    fn output_buffer(&mut self) -> (buf: &mut ActorBuffer<DataPacket>) {
        &mut self.output
    }
}

/// Why a cache turned a raw snapshot away.
#[derive(Clone, Copy, Debug, PartialEq, Eq, Structural)]
pub enum CacheError {
    /// The snapshot breaches the store's integrity.
    Integrity(IntegrityError),
    /// The output buffer has no room for what the snapshot gives rise to.
    OutputFull,
}

/// Cache that takes raw snapshots and hands each on pruned to the markets
/// that changed.
pub struct RawToRawMarketDataCache {
    state: PIDataState,
    output: ActorBuffer<PIDataPacket>,
    warnings: Vec<StaleWarning>,
}

impl View for RawToRawMarketDataCache {
    type V = CacheModel<Map<u64, MarketDataView>>;

    closed spec fn view(&self) -> CacheModel<Map<u64, MarketDataView>> {
        CacheModel {
            state: self.state@,
            output: Seq::new(self.output@.len(), |i: int| self.output@[i]@),
            capacity: self.output.capacity(),
            warnings: self.warnings@,
        }
    }
}

/// What a raw-to-raw cache in state `m` makes of the snapshot `all`,
/// walked as `walk`.  With the output buffer full, nothing happens.  Else
/// the snapshot is ingested; if that stops at a breach, nothing is handed on;
/// else the snapshot, pruned to the markets that changed, is queued, even
/// where it is empty.
pub open spec fn raw_to_raw_next(
    m: CacheModel<Map<u64, MarketDataView>>,
    walk: Seq<(u64, MarketDataView)>,
    all: Map<u64, MarketDataView>,
) -> CacheModel<Map<u64, MarketDataView>> {
    if m.output.len() >= m.capacity {
        m
    } else if packet_error(m.state, values(walk)).is_some() {
        CacheModel { state: ingest_markets(m.state, values(walk)), ..m }
    } else {
        CacheModel {
            state: ingest_markets(m.state, values(walk)),
            output: m.output.push(all.restrict(changed_ids(keyed_changes(m.state, walk)))),
            capacity: m.capacity,
            warnings: m.warnings + packet_warnings(m.state, values(walk)),
        }
    }
}

/// Why a raw-to-raw cache in state `m` turns a snapshot walked as `walk`
/// away, if it does.
pub open spec fn raw_to_raw_error(
    m: CacheModel<Map<u64, MarketDataView>>,
    walk: Seq<(u64, MarketDataView)>,
) -> Option<CacheError> {
    if m.output.len() >= m.capacity {
        Some(CacheError::OutputFull)
    } else {
        match packet_error(m.state, values(walk)) {
            Some(e) => Some(CacheError::Integrity(e)),
            None => None,
        }
    }
}

impl RawToRawMarketDataCache {
    /// Validity: the store keeps its integrity and the output buffer is
    /// well-formed.
    pub closed spec fn wf(&self) -> bool {
        &&& self.state.wf()
        &&& self.output.wf()
    }

    /// The cache's view agrees with its output buffer, and the cache is
    /// valid in both of its roles exactly when it is well-formed.
    pub proof fn lemma_view(&self)
        ensures
            self@.output == Seq::new(self.output()@.len(), |i: int| self.output()@[i]@),
            self@.capacity == self.output().capacity(),
            self.wf() ==> self.output().wf() && self@.state.wf() && self.provider_inv()
                && self.listener_inv()
                && self@.output.len() <= self@.capacity,
            self.provider_inv() ==> self.wf(),
            self.listener_inv() ==> self.wf(),
    {
        if self.wf() {
            self.output.lemma_len();
        }
    }

    /// With another output buffer the cache holds the same store and
    /// warnings.
    pub proof fn lemma_with_output_view(&self, b: ActorBuffer<PIDataPacket>)
        ensures
            self.with_output(b)@ == (CacheModel {
                output: Seq::new(b@.len(), |i: int| b@[i]@),
                capacity: b.capacity(),
                ..self@
            }),
            self.wf() && b.wf() ==> self.with_output(b).wf(),
    {
    }

    /// A cache over `state` with an empty output buffer of the default
    /// capacity.
    pub fn new(state: PIDataState) -> (c: Self)
        requires
            state.wf(),
        ensures
            c.wf(),
            c@ == (CacheModel::<Map<u64, MarketDataView>> {
                state: state@,
                output: Seq::empty(),
                capacity: crate::actor::DEFAULT_BUFFER_SIZE as nat,
                warnings: Seq::empty(),
            }),
    {
        let c = RawToRawMarketDataCache {
            state,
            output: ActorBuffer::new(),
            warnings: Vec::new(),
        };
        assert(c@.output =~= Seq::empty());
        c
    }

    /// The store.
    pub fn state_ref(&self) -> (s: &PIDataState)
        requires
            self.wf(),
        ensures
            s@ == self@.state,
            s.wf(),
    {
        &self.state
    }

    /// Hands over the warnings raised since the last call.
    pub fn take_warnings(&mut self) -> (w: Vec<StaleWarning>)
        requires
            old(self).wf(),
        ensures
            final(self).wf(),
            w@ == old(self)@.warnings,
            final(self)@ == (CacheModel { warnings: Seq::empty(), ..old(self)@ }),
    {
        let mut w: Vec<StaleWarning> = Vec::new();
        std::mem::swap(&mut w, &mut self.warnings);
        w
    }

    /// Ingests a snapshot and queues a copy of it pruned to the markets that
    /// changed.  Tells why where the snapshot is turned away.
    pub fn ingest_and_filter(&mut self, data: &PIDataPacket) -> (r: Result<bool, CacheError>)
        requires
            old(self).wf(),
        ensures
            final(self).wf(),
            final(self)@ == raw_to_raw_next(old(self)@, data.walk(), data@),
            match r {
                Ok(acted) => acted && raw_to_raw_error(old(self)@, data.walk()).is_none(),
                Err(e) => raw_to_raw_error(old(self)@, data.walk()) == Some(e),
            },
    {
        proof {
            self.output.lemma_len();
        }
        if self.output.is_full() {
            return Err(CacheError::OutputFull);
        }
        let ghost before = self@;
        let ghost queued = self.output@;
        match ingest_data(&mut self.state, data) {
            Ok(delta) => {
                let filtered = filter_changed(data, &delta.updated);
                proof {
                    lemma_changes_map_dom(keyed_changes(before.state, data.walk()));
                    assert(delta.updated@.dom() =~= lists_view(delta.updated@).dom());
                }
                let pushed = self.output.push(filtered);
                assert(pushed.is_ok());
                let mut raised = delta.warnings;
                self.warnings.append(&mut raised);
                proof {
                    assert(self.output@ == queued.push(filtered));
                    assert(self@.output =~= before.output.push(filtered@));
                }
                Ok(true)
            },
            Err(e) => {
                proof {
                    assert(self@.output =~= before.output);
                }
                Err(CacheError::Integrity(e))
            },
        }
    }
}

impl Listener<PIDataPacket> for RawToRawMarketDataCache {
    type Model = CacheModel<Map<u64, MarketDataView>>;

    open spec fn listener_inv(&self) -> bool {
        self.wf()
    }

    open spec fn model(&self) -> CacheModel<Map<u64, MarketDataView>> {
        self@
    }

    open spec fn ready(m: CacheModel<Map<u64, MarketDataView>>, input: PIDataPacket) -> bool {
        raw_to_raw_error(m, input.walk()).is_none()
    }

    open spec fn next(m: CacheModel<Map<u64, MarketDataView>>, input: PIDataPacket) -> CacheModel<
        Map<u64, MarketDataView>,
    > {
        raw_to_raw_next(m, input.walk(), input@)
    }

    open spec fn acts(m: CacheModel<Map<u64, MarketDataView>>, input: PIDataPacket) -> bool {
        true
    }

    /// Ingests the snapshot and hands it on pruned to what changed.
    fn process(&mut self, data: &PIDataPacket) -> (acted: bool) {
        match self.ingest_and_filter(data) {
            Ok(acted) => acted,
            Err(_) => true,
        }
    }
}

impl Provider<PIDataPacket> for RawToRawMarketDataCache {
    open spec fn provider_inv(&self) -> bool {
        self.wf()
    }

    closed spec fn output(&self) -> ActorBuffer<PIDataPacket> {
        self.output
    }

    closed spec fn with_output(&self, buf: ActorBuffer<PIDataPacket>) -> Self {
        RawToRawMarketDataCache { output: buf, ..*self }
    }


    fn output_buffer(&mut self) -> (buf: &mut ActorBuffer<PIDataPacket>) {
        &mut self.output
    }
}

/// Cache that takes raw snapshots and hands on one canonical event for each
/// contract that changed.
pub struct RawMarketDataCache {
    state: PIDataState,
    output: ActorBuffer<DataPacket>,
    warnings: Vec<StaleWarning>,
}

impl View for RawMarketDataCache {
    type V = CacheModel<DataPacket>;

    closed spec fn view(&self) -> CacheModel<DataPacket> {
        CacheModel {
            state: self.state@,
            output: self.output@,
            capacity: self.output.capacity(),
            warnings: self.warnings@,
        }
    }
}

/// The events that a snapshot walked as `walk` gives rise to in store `s`:
/// one for each contract of the change-set, with the values that the store
/// holds once the whole snapshot is ingested.
pub open spec fn snapshot_events(s: StateView, walk: Seq<(u64, MarketDataView)>) -> Seq<
    DataPacket,
> {
    packet_events(ingest_markets(s, values(walk)), keyed_changes(s, walk))
}

/// Why an event cache in state `m` turns a snapshot walked as `ms` away, if
/// it does.
pub open spec fn raw_error(m: CacheModel<DataPacket>, ms: Seq<(u64, MarketDataView)>) -> Option<
    CacheError,
> {
    match packet_error(m.state, values(ms)) {
        Some(e) => Some(CacheError::Integrity(e)),
        None => if m.output.len() + snapshot_events(m.state, ms).len() > m.capacity {
            Some(CacheError::OutputFull)
        } else {
            None
        },
    }
}

/// What an event cache in state `m` makes of a snapshot walked as `ms`.
/// The snapshot is ingested.  If that stops at a breach nothing else
/// happens.  Else the warnings are kept, and the events are queued if the
/// output buffer has room for all of them, none otherwise.
pub open spec fn raw_next(m: CacheModel<DataPacket>, ms: Seq<(u64, MarketDataView)>)
    -> CacheModel<DataPacket> {
    if packet_error(m.state, values(ms)).is_some() {
        CacheModel { state: ingest_markets(m.state, values(ms)), ..m }
    } else {
        CacheModel {
            state: ingest_markets(m.state, values(ms)),
            output: if m.output.len() + snapshot_events(m.state, ms).len() > m.capacity {
                m.output
            } else {
                m.output + snapshot_events(m.state, ms)
            },
            capacity: m.capacity,
            warnings: m.warnings + packet_warnings(m.state, values(ms)),
        }
    }
}

/// Idempotence of the snapshot cache: a snapshot fed a second time, right
/// after the first, gives rise to no event and leaves the store as the
/// first left it.  This holds of a snapshot that is ingested without breach
/// and in which no market occurs twice and no contract occurs twice within a
/// market.
pub proof fn lemma_raw_cache_twice(m: CacheModel<DataPacket>, ms: Seq<(u64, MarketDataView)>)
    requires
        m.state.wf(),
        packet_error(m.state, values(ms)).is_none(),
        distinct_ids(values(ms)),
    ensures
        snapshot_events(raw_next(m, ms).state, ms) == Seq::<DataPacket>::empty(),
        raw_next(raw_next(m, ms), ms).output == raw_next(m, ms).output,
        raw_next(raw_next(m, ms), ms).state == raw_next(m, ms).state,
{
    lemma_snapshot_twice(m.state, values(ms));
    let once = raw_next(m, ms);
    lemma_keyed_changes(once.state, ms);
    assert(keyed_changes(once.state, ms) =~= Seq::<(u64, Seq<u64>)>::empty());
    assert(once.output + Seq::<DataPacket>::empty() =~= once.output);
}

/// Monotonic rejection in the snapshot cache: a snapshot whose only market
/// is strictly older than the last one accepted for that market gives rise
/// to no event, leaves the store as it was, and is recorded in a warning.
pub proof fn lemma_raw_cache_rejects_stale(
    m: CacheModel<DataPacket>,
    key: u64,
    market: MarketDataView,
)
    requires
        m.state.markets.contains_key(market.id),
        market.timestamp < m.state.markets[market.id].data_ts,
    ensures
        raw_next(m, seq![(key, market)]).output == m.output,
        raw_next(m, seq![(key, market)]).state == m.state,
        raw_next(m, seq![(key, market)]).warnings == m.warnings.push(
            StaleWarning::Market {
                id: market.id,
                stored_ts: m.state.markets[market.id].data_ts,
                seen_ts: market.timestamp,
            },
        ),
{
    let walk = seq![(key, market)];
    let ms = values(walk);
    lemma_stale_market_rejected(m.state, market);
    assert(ms =~= seq![market]);
    assert(ms.drop_last() =~= Seq::<MarketDataView>::empty());
    assert(ms.last() == market);
    assert(ingest_markets(m.state, ms.drop_last()) == m.state);
    assert(packet_error(m.state, ms.drop_last()).is_none());
    assert(packet_changes(m.state, ms.drop_last()) =~= Seq::<(u64, Seq<u64>)>::empty());
    assert(market_changes(ingest_markets(m.state, ms.drop_last()), ms.last()).len() == 0);
    assert(packet_changes(m.state, ms) =~= Seq::<(u64, Seq<u64>)>::empty());
    lemma_keyed_changes(m.state, walk);
    assert(keyed_changes(m.state, walk) =~= Seq::<(u64, Seq<u64>)>::empty());
    assert(packet_warnings(m.state, ms.drop_last()) =~= Seq::<StaleWarning>::empty());
    assert(market_warnings(ingest_markets(m.state, ms.drop_last()), ms.last()) =~= seq![
        StaleWarning::Market {
            id: market.id,
            stored_ts: m.state.markets[market.id].data_ts,
            seen_ts: market.timestamp,
        },
    ]);
    assert(packet_warnings(m.state, ms) =~= seq![
        StaleWarning::Market {
            id: market.id,
            stored_ts: m.state.markets[market.id].data_ts,
            seen_ts: market.timestamp,
        },
    ]);
    assert(m.output + Seq::<DataPacket>::empty() =~= m.output);
    assert(m.warnings + packet_warnings(m.state, ms) =~= m.warnings.push(
        StaleWarning::Market {
            id: market.id,
            stored_ts: m.state.markets[market.id].data_ts,
            seen_ts: market.timestamp,
        },
    ));
}

impl RawMarketDataCache {
    /// Validity: the store keeps its integrity and the output buffer is
    /// well-formed.
    pub closed spec fn wf(&self) -> bool {
        &&& self.state.wf()
        &&& self.output.wf()
    }

    /// The cache's view agrees with its output buffer, and the cache is
    /// valid in both of its roles exactly when it is well-formed.
    pub proof fn lemma_view(&self)
        ensures
            self@.output == self.output()@,
            self@.capacity == self.output().capacity(),
            self.wf() ==> self.output().wf() && self@.state.wf() && self.provider_inv()
                && self.listener_inv()
                && self@.output.len() <= self@.capacity,
            self.provider_inv() ==> self.wf(),
            self.listener_inv() ==> self.wf(),
    {
        if self.wf() {
            self.output.lemma_len();
        }
    }

    /// With another output buffer the cache holds the same store and
    /// warnings.
    pub proof fn lemma_with_output_view(&self, b: ActorBuffer<DataPacket>)
        ensures
            self.with_output(b)@ == (CacheModel { output: b@, capacity: b.capacity(), ..self@ }),
            self.wf() && b.wf() ==> self.with_output(b).wf(),
    {
    }

    /// A cache over `state` with an empty output buffer for 4096 events.
    pub fn new(state: PIDataState) -> (c: Self)
        requires
            state.wf(),
        ensures
            c.wf(),
            c@ == (CacheModel::<DataPacket> {
                state: state@,
                output: Seq::empty(),
                capacity: 4096,
                warnings: Seq::empty(),
            }),
    {
        RawMarketDataCache {
            state,
            output: ActorBuffer::with_capacity(4096),
            warnings: Vec::new(),
        }
    }

    /// The store.
    pub fn state_ref(&self) -> (s: &PIDataState)
        requires
            self.wf(),
        ensures
            s@ == self@.state,
            s.wf(),
    {
        &self.state
    }

    /// Hands over the warnings raised since the last call.
    pub fn take_warnings(&mut self) -> (w: Vec<StaleWarning>)
        requires
            old(self).wf(),
        ensures
            final(self).wf(),
            w@ == old(self)@.warnings,
            final(self)@ == (CacheModel { warnings: Seq::empty(), ..old(self)@ }),
    {
        let mut w: Vec<StaleWarning> = Vec::new();
        std::mem::swap(&mut w, &mut self.warnings);
        w
    }

    /// Ingests a snapshot and queues one event for each contract that
    /// changed; returns the number of events queued.  Tells why where the
    /// snapshot is turned away.
    pub fn ingest_and_transform(&mut self, data: &PIDataPacket) -> (r: Result<usize, CacheError>)
        requires
            old(self).wf(),
        ensures
            final(self).wf(),
            final(self)@ == raw_next(old(self)@, data.walk()),
            match r {
                Ok(nout) => raw_error(old(self)@, data.walk()).is_none() && nout
                    == snapshot_events(old(self)@.state, data.walk()).len(),
                Err(e) => raw_error(old(self)@, data.walk()) == Some(e),
            },
    {
        let ghost before = self@;
        proof {
            self.output.lemma_len();
            lemma_ingest_markets_wf(before.state, values(data.walk()));
            lemma_keyed_changes(before.state, data.walk());
        }
        let delta = match ingest_data(&mut self.state, data) {
            Ok(delta) => delta,
            Err(e) => {
                return Err(CacheError::Integrity(e));
            },
        };
        proof {
            lemma_in_walk_order(before.state, data.walk());
        }
        let events = collect_events(&self.state, data, &delta.updated);
        let mut raised = delta.warnings;
        self.warnings.append(&mut raised);
        if events.len() > self.output.room() {
            return Err(CacheError::OutputFull);
        }
        let mut nout: usize = 0;
        while nout < events.len()
            invariant
                nout <= events.len(),
                self.state@ == ingest_markets(before.state, values(data.walk())),
                self.state.wf(),
                self.output.wf(),
                self.output.capacity() == before.capacity,
                self.warnings@ == before.warnings + packet_warnings(
                    before.state,
                    values(data.walk()),
                ),
                before.output.len() + events@.len() <= before.capacity,
                self.output@ == before.output + events@.take(nout as int),
            decreases events.len() - nout,
        {
            let pushed = self.output.push(events[nout]);
            assert(pushed.is_ok());
            nout = nout + 1;
            assert(self.output@ =~= before.output + events@.take(nout as int));
        }
        proof {
            assert(events@.take(nout as int) =~= events@);
        }
        Ok(nout)
    }
}

impl Listener<PIDataPacket> for RawMarketDataCache {
    type Model = CacheModel<DataPacket>;

    open spec fn listener_inv(&self) -> bool {
        self.wf()
    }

    open spec fn model(&self) -> CacheModel<DataPacket> {
        self@
    }

    open spec fn ready(m: CacheModel<DataPacket>, input: PIDataPacket) -> bool {
        raw_error(m, input.walk()).is_none()
    }

    open spec fn next(m: CacheModel<DataPacket>, input: PIDataPacket) -> CacheModel<DataPacket> {
        raw_next(m, input.walk())
    }

    open spec fn acts(m: CacheModel<DataPacket>, input: PIDataPacket) -> bool {
        snapshot_events(m.state, input.walk()).len() > 0
    }

    /// Ingests the snapshot and hands on one event for each contract that
    /// changed.
    fn process(&mut self, data: &PIDataPacket) -> (acted: bool) {
        match self.ingest_and_transform(data) {
            Ok(nout) => nout > 0,
            Err(_) => false,
        }
    }
}

impl Provider<DataPacket> for RawMarketDataCache {
    open spec fn provider_inv(&self) -> bool {
        self.wf()
    }

    closed spec fn output(&self) -> ActorBuffer<DataPacket> {
        self.output
    }

    closed spec fn with_output(&self, buf: ActorBuffer<DataPacket>) -> Self {
        RawMarketDataCache { output: buf, ..*self }
    }


    fn output_buffer(&mut self) -> (buf: &mut ActorBuffer<DataPacket>) {
        &mut self.output
    }
}

/// What a delayed cache holds: its store, the events it holds back and how
/// many it can hold, the events waiting in its output buffer and that
/// buffer's capacity, the delay, and the warnings not yet collected.
pub struct DelayedModel {
    pub state: StateView,
    pub held: Seq<DataPacket>,
    pub held_capacity: nat,
    pub output: Seq<DataPacket>,
    pub capacity: nat,
    pub delay: u64,
    pub warnings: Seq<StaleWarning>,
}

/// Whether an event held since `held_ts` is due once an event of time `now`
/// arrives: it is when at least `delay` has passed, equality included.
pub open spec fn is_due(held_ts: i64, now: i64, delay: u64) -> bool {
    held_ts <= now - delay
}

/// The delayed cache after its oldest held event is released: the event is
/// ingested, and handed on if it changed the store.
pub open spec fn release_one(m: DelayedModel) -> DelayedModel {
    let e = m.held[0];
    DelayedModel {
        state: ingest_event(m.state, e),
        held: m.held.skip(1),
        held_capacity: m.held_capacity,
        output: if event_outcome(m.state, e) == EventOutcome::Changed {
            m.output.push(e)
        } else {
            m.output
        },
        capacity: m.capacity,
        delay: m.delay,
        warnings: log_warning(m.warnings, event_warning(m.state, e)),
    }
}

/// The delayed cache after every held event that is due at `now` is
/// released, oldest first, up to the first that is not due.
pub open spec fn release(m: DelayedModel, now: i64) -> DelayedModel
    decreases m.held.len(),
{
    if m.held.len() > 0 && is_due(m.held[0].timestamp, now, m.delay) {
        release(release_one(m), now)
    } else {
        m
    }
}

/// Whether the output buffer has room for each event that is handed on
/// while the events due at `now` are released.
pub open spec fn release_fits(m: DelayedModel, now: i64) -> bool
    decreases m.held.len(),
{
    if m.held.len() > 0 && is_due(m.held[0].timestamp, now, m.delay) {
        &&& event_outcome(m.state, m.held[0]) == EventOutcome::Changed ==> m.output.len()
            < m.capacity
        &&& release_fits(release_one(m), now)
    } else {
        true
    }
}

/// Releasing takes events off the front of what is held and adds at most
/// as many to the output.
pub proof fn lemma_release_bounds(m: DelayedModel, now: i64)
    ensures
        release(m, now).held.len() <= m.held.len(),
        release(m, now).output.len() + release(m, now).held.len() <= m.output.len()
            + m.held.len(),
        release(m, now).capacity == m.capacity,
        release(m, now).held_capacity == m.held_capacity,
        release(m, now).delay == m.delay,
        m.output.len() + m.held.len() <= m.capacity ==> release_fits(m, now),
        m.held.len() > 0 && is_due(m.held[0].timestamp, now, m.delay) ==> release(
            m,
            now,
        ).held.len() < m.held.len(),
    decreases m.held.len(),
{
    if m.held.len() > 0 && is_due(m.held[0].timestamp, now, m.delay) {
        lemma_release_bounds(release_one(m), now);
    }
}

/// The release condition: an event held since `held_ts` is released by an
/// event of time `now` exactly when `held_ts + delay <= now`.  The oldest
/// held event that is not due stops the release, and what is held then stays
/// as it is.
pub proof fn lemma_release_condition(m: DelayedModel, now: i64)
    requires
        m.held.len() > 0,
    ensures
        is_due(m.held[0].timestamp, now, m.delay) <==> m.held[0].timestamp + m.delay <= now,
        is_due(m.held[0].timestamp, now, m.delay) ==> release(m, now) == release(
            release_one(m),
            now,
        ),
        !is_due(m.held[0].timestamp, now, m.delay) ==> release(m, now) == m,
{
}

/// Cache that holds each canonical event back until an event at least
/// `delay` later arrives, and only then ingests it; it hands on the held
/// events that changed its store.  Its store therefore shows the market as
/// it was `delay` ago.
pub struct DelayedMarketDataCache {
    pub state: PIDataState,
    delay_time: u64,
    delay_buffer: ActorBuffer<DataPacket>,
    output: ActorBuffer<DataPacket>,
    warnings: Vec<StaleWarning>,
}

impl View for DelayedMarketDataCache {
    type V = DelayedModel;

    closed spec fn view(&self) -> DelayedModel {
        DelayedModel {
            state: self.state@,
            held: self.delay_buffer@,
            held_capacity: self.delay_buffer.capacity(),
            output: self.output@,
            capacity: self.output.capacity(),
            delay: self.delay_time,
            warnings: self.warnings@,
        }
    }
}

impl DelayedMarketDataCache {
    /// Validity: the store keeps its integrity, both buffers are
    /// well-formed, and the delay is positive.
    pub closed spec fn wf(&self) -> bool {
        &&& self.state.wf()
        &&& self.output.wf()
        &&& self.delay_buffer.wf()
        &&& self.delay_time > 0
    }

    /// The cache's view agrees with its output buffer, and the cache is
    /// valid in both of its roles exactly when it is well-formed.
    pub proof fn lemma_view(&self)
        ensures
            self@.output == self.output()@,
            self@.capacity == self.output().capacity(),
            self.wf() ==> self.output().wf() && self@.state.wf() && self.provider_inv()
                && self.listener_inv()
                && self@.output.len() <= self@.capacity && self@.held.len()
                <= self@.held_capacity && self@.delay > 0,
            self.provider_inv() ==> self.wf(),
            self.listener_inv() ==> self.wf(),
    {
        if self.wf() {
            self.output.lemma_len();
            self.delay_buffer.lemma_len();
        }
    }

    /// With another output buffer the cache holds the same store, held
    /// events, delay and warnings.
    pub proof fn lemma_with_output_view(&self, b: ActorBuffer<DataPacket>)
        ensures
            self.with_output(b)@ == (DelayedModel { output: b@, capacity: b.capacity(), ..self@ }),
            self.wf() && b.wf() ==> self.with_output(b).wf(),
    {
    }

    /// A cache over `state` that holds events back by `delay_time`, with
    /// room for `capacity` held events and as many outgoing ones.
    pub fn new(state: PIDataState, delay_time: u64, capacity: usize) -> (c: Self)
        requires
            state.wf(),
            delay_time > 0,
        ensures
            c.wf(),
            c@ == (DelayedModel {
                state: state@,
                held: Seq::empty(),
                held_capacity: capacity as nat,
                output: Seq::empty(),
                capacity: capacity as nat,
                delay: delay_time,
                warnings: Seq::empty(),
            }),
    {
        DelayedMarketDataCache {
            state,
            delay_time,
            delay_buffer: ActorBuffer::with_capacity(capacity),
            output: ActorBuffer::with_capacity(capacity),
            warnings: Vec::new(),
        }
    }

    /// The store.
    pub fn state_ref(&self) -> (s: &PIDataState)
        requires
            self.wf(),
        ensures
            s@ == self@.state,
            s.wf(),
    {
        &self.state
    }

    /// Hands over the warnings raised since the last call.
    pub fn take_warnings(&mut self) -> (w: Vec<StaleWarning>)
        requires
            old(self).wf(),
        ensures
            final(self).wf(),
            w@ == old(self)@.warnings,
            final(self)@ == (DelayedModel { warnings: Seq::empty(), ..old(self)@ }),
    {
        let mut w: Vec<StaleWarning> = Vec::new();
        std::mem::swap(&mut w, &mut self.warnings);
        w
    }

    /// Whether the buffers surely have room for `process` to take `data`:
    /// the output buffer could take every held event, and the holding buffer
    /// is not full or its oldest event is due.
    pub fn has_room(&self, data: &DataPacket) -> (r: bool)
        requires
            self.wf(),
        ensures
            r == (self@.output.len() + self@.held.len() <= self@.capacity && (self@.held.len()
                < self@.held_capacity || (self@.held.len() > 0 && is_due(
                self@.held[0].timestamp,
                data.timestamp,
                self@.delay,
            )))),
            r ==> <Self as Listener<DataPacket>>::ready(self@, *data),
    {
        proof {
            self.output.lemma_len();
            self.delay_buffer.lemma_len();
            lemma_release_bounds(self@, data.timestamp);
        }
        if self.delay_buffer.size() > self.output.room() {
            return false;
        }
        if !self.delay_buffer.is_full() {
            return true;
        }
        match self.delay_buffer.peek() {
            Some(oldest) => due(oldest.timestamp, data.timestamp, self.delay_time),
            None => false,
        }
    }
}

/// Whether an event held since `held_ts` is due at `now`.
pub fn due(held_ts: i64, now: i64, delay: u64) -> (d: bool)
    ensures
        d == is_due(held_ts, now, delay),
{
    held_ts as i128 <= now as i128 - delay as i128
}

impl Listener<DataPacket> for DelayedMarketDataCache {
    type Model = DelayedModel;

    open spec fn listener_inv(&self) -> bool {
        self.wf()
    }

    open spec fn model(&self) -> DelayedModel {
        self@
    }

    open spec fn ready(m: DelayedModel, input: DataPacket) -> bool {
        &&& release_fits(m, input.timestamp)
        &&& release(m, input.timestamp).held.len() < m.held_capacity
    }

    open spec fn next(m: DelayedModel, input: DataPacket) -> DelayedModel {
        let released = release(m, input.timestamp);
        DelayedModel { held: released.held.push(input), ..released }
    }

    open spec fn acts(m: DelayedModel, input: DataPacket) -> bool {
        true
    }

    /// Releases the held events that are due at the time of `data`, then
    /// holds `data` back.
    fn process(&mut self, data: &DataPacket) -> (acted: bool) {
        let ghost start = self@;
        let now = data.timestamp;
        loop
            invariant
                self.wf(),
                release(self@, now) == release(start, now),
                release_fits(self@, now),
                self@.capacity == start.capacity,
                self@.held_capacity == start.held_capacity,
            ensures
                self.wf(),
                self@ == release(start, now),
            decreases self.delay_buffer@.len(),
        {
            let held = match self.delay_buffer.peek() {
                Some(oldest) => {
                    if due(oldest.timestamp, now, self.delay_time) {
                        *oldest
                    } else {
                        break ;
                    }
                },
                None => {
                    break ;
                },
            };
            let ghost before = self@;
            match ingest_data_packet(&mut self.state, &held) {
                EventOutcome::Changed => {
                    let pushed = self.output.push(held);
                    assert(pushed.is_ok());
                },
                EventOutcome::Unchanged => {},
                EventOutcome::Stale { stored_ts } => {
                    self.warnings.push(
                        StaleWarning::Contract {
                            id: held.id_of(),
                            stored_ts,
                            seen_ts: held.timestamp,
                        },
                    );
                },
            }
            self.delay_buffer.deque_ref();
            assert(self@ == release_one(before));
        }
        let pushed = self.delay_buffer.push(*data);
        assert(pushed.is_ok());
        true
    }
}

impl Provider<DataPacket> for DelayedMarketDataCache {
    open spec fn provider_inv(&self) -> bool {
        self.wf()
    }

    closed spec fn output(&self) -> ActorBuffer<DataPacket> {
        self.output
    }

    closed spec fn with_output(&self, buf: ActorBuffer<DataPacket>) -> Self {
        DelayedMarketDataCache { output: buf, ..*self }
    }


    fn output_buffer(&mut self) -> (buf: &mut ActorBuffer<DataPacket>) {
        &mut self.output
    }
}

} // verus!
