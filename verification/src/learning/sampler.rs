//! The sampler: it pairs what a contract looked like a while ago (back
//! price), what it looks like now (tick price) and what it looks like one
//! window later (forward price).
//!
//! A sample is enrolled, pending, when an event arrives for a contract that
//! both the live and the delayed store know with a spread within the quality
//! threshold (`Sampler::pre_process`).  It is released `window` later:
//! resolved with the live mid-price of that moment if the live spread is
//! then within the threshold, dropped otherwise (`Sampler::post_process`).
//! On each event the samples that are due are released first, then the
//! caches ingest the event, then the event's own sample is enrolled.

use crate::actor::{drain_sink, ActorBuffer, Listener, Provider};
use crate::base::{PIDataState, StateView};
use crate::market_data::ingest::StaleWarning;
use crate::market_data::md_cache::{
    lemma_release_bounds, release, CacheModel, DelayedMarketDataCache, DelayedModel,
    MarketDataCache,
};
use crate::market_data::DataPacket;
use crate::parser::{position, Arg, ArgValueView, ArgView, Parser};
use crate::text::{digits, parse_u64, price_text, push_i64, push_price, push_u64, u64_of};
use std::collections::VecDeque;
use vstd::prelude::*;
use vstd::string::*;

verus! {

/// A training sample for one contract.  `forward_price` is zero while the
/// sample is pending.
#[derive(Clone, Copy, Debug, PartialEq, Eq, Structural)]
pub struct SampleData {
    pub id: u64,
    pub timestamp: i64,
    pub back_price: u64,
    pub tick_price: u64,
    pub forward_price: u64,
}

/// What a sampler holds: its window, its spread threshold, the pending
/// samples with their release times, the resolved samples waiting in its
/// output buffer, and that buffer's capacity.
pub struct SamplerModel {
    pub window: u64,
    pub max_spread: u64,
    pub pending: Seq<(i128, SampleData)>,
    pub output: Seq<SampleData>,
    pub capacity: nat,
}

/// Whether the store knows contract `id` with a spread of at most
/// `max_spread`.
pub open spec fn within_spread(s: StateView, id: u64, max_spread: u64) -> bool {
    s.contracts.contains_key(id) && s.contracts[id].prices.spread() <= max_spread
}

/// Whether the pending samples are in ascending order of release time.
pub open spec fn ascending(q: Seq<(i128, SampleData)>) -> bool {
    forall|i: int, j: int| 0 <= i <= j < q.len() ==> q[i].0 <= q[j].0
}

/// The place of a sample released at `release` among the pending samples
/// `q`: behind every sample released no later.
pub open spec fn slot_for(q: Seq<(i128, SampleData)>, release: i128) -> int
    decreases q.len(),
{
    if q.len() == 0 {
        0
    } else if q.last().0 <= release {
        q.len() as int
    } else {
        slot_for(q.drop_last(), release)
    }
}

/// `slot_for` splits an ascending queue into the samples released no later
/// than `release` and those released later.
pub proof fn lemma_slot_for(q: Seq<(i128, SampleData)>, release: i128)
    requires
        ascending(q),
    ensures
        0 <= slot_for(q, release) <= q.len(),
        forall|k: int| 0 <= k < slot_for(q, release) ==> (#[trigger] q[k]).0 <= release,
        forall|k: int| slot_for(q, release) <= k < q.len() ==> (#[trigger] q[k]).0 > release,
    decreases q.len(),
{
    if q.len() > 0 && q.last().0 > release {
        let front = q.drop_last();
        assert forall|i: int, j: int| 0 <= i <= j < front.len() implies front[i].0
            <= front[j].0 by {
            assert(front[i] == q[i] && front[j] == q[j]);
        }
        lemma_slot_for(front, release);
        assert forall|k: int| 0 <= k < slot_for(q, release) implies (#[trigger] q[k]).0
            <= release by {
            assert(q[k] == front[k]);
        }
        assert forall|k: int| slot_for(q, release) <= k < q.len() implies (#[trigger] q[k]).0
            > release by {
            if k < front.len() {
                assert(q[k] == front[k]);
            }
        }
    }
}

/// Inserting a sample at its place keeps the queue ascending.
pub proof fn lemma_insert_ascending(q: Seq<(i128, SampleData)>, entry: (i128, SampleData))
    requires
        ascending(q),
    ensures
        ascending(q.insert(slot_for(q, entry.0), entry)),
{
    lemma_slot_for(q, entry.0);
    let p = slot_for(q, entry.0);
    let r = q.insert(p, entry);
    assert forall|i: int, j: int| 0 <= i <= j < r.len() implies r[i].0 <= r[j].0 by {
        if i < p {
            assert(r[i] == q[i]);
        } else if i > p {
            assert(r[i] == q[i - 1]);
        }
        if j < p {
            assert(r[j] == q[j]);
        } else if j > p {
            assert(r[j] == q[j - 1]);
        }
    }
}

/// The sample that an event `e` enrolls, with its release time, if it
/// enrolls one: both stores must know the event's contract with a spread
/// within the threshold.  The back price is the delayed mid-price, the tick
/// price the live one.
pub open spec fn enrolled(
    live: StateView,
    delayed: StateView,
    e: DataPacket,
    window: u64,
    max_spread: u64,
) -> Option<(i128, SampleData)> {
    if within_spread(live, e.id(), max_spread) && within_spread(delayed, e.id(), max_spread) {
        Some(
            (
                (e.timestamp + window) as i128,
                SampleData {
                    id: e.id(),
                    timestamp: e.timestamp,
                    back_price: delayed.contracts[e.id()].prices.mid() as u64,
                    tick_price: live.contracts[e.id()].prices.mid() as u64,
                    forward_price: 0,
                },
            ),
        )
    } else {
        None
    }
}

/// The sampler after event `e` had its chance to enroll a sample.
pub open spec fn enroll(m: SamplerModel, live: StateView, delayed: StateView, e: DataPacket)
    -> SamplerModel {
    match enrolled(live, delayed, e, m.window, m.max_spread) {
        Some(entry) => SamplerModel {
            pending: m.pending.insert(slot_for(m.pending, entry.0), entry),
            ..m
        },
        None => m,
    }
}

/// The sampler after its earliest pending sample is released: resolved with
/// the live mid-price and queued for output if the live store knows the
/// contract with a spread within the threshold, dropped otherwise.
pub open spec fn resolve_one(m: SamplerModel, live: StateView) -> SamplerModel {
    let sample = m.pending[0].1;
    SamplerModel {
        pending: m.pending.skip(1),
        output: if within_spread(live, sample.id, m.max_spread) {
            m.output.push(
                SampleData {
                    forward_price: live.contracts[sample.id].prices.mid() as u64,
                    ..sample
                },
            )
        } else {
            m.output
        },
        ..m
    }
}

/// The sampler after every pending sample due at `now` is released,
/// earliest first: a sample is due when its release time is `now` or
/// earlier.
pub open spec fn resolve(m: SamplerModel, live: StateView, now: i64) -> SamplerModel
    decreases m.pending.len(),
{
    if m.pending.len() > 0 && m.pending[0].0 <= now {
        resolve(resolve_one(m, live), live, now)
    } else {
        m
    }
}

/// Whether the output buffer has room for each sample that is resolved
/// while the samples due at `now` are released.
pub open spec fn resolve_fits(m: SamplerModel, live: StateView, now: i64) -> bool
    decreases m.pending.len(),
{
    if m.pending.len() > 0 && m.pending[0].0 <= now {
        &&& within_spread(live, m.pending[0].1.id, m.max_spread) ==> m.output.len() < m.capacity
        &&& resolve_fits(resolve_one(m, live), live, now)
    } else {
        true
    }
}

/// The release condition: a sample enrolled by an event of time `t` is due
/// at `t + window`; the earliest pending sample is released by an event of
/// time `now` exactly when its release time is `now` or earlier, and a
/// sample that is not yet due stops the release.
pub proof fn lemma_resolve_condition(
    m: SamplerModel,
    live: StateView,
    delayed: StateView,
    e: DataPacket,
    now: i64,
)
    ensures
        match enrolled(live, delayed, e, m.window, m.max_spread) {
            Some(entry) => entry.0 == e.timestamp + m.window && entry.1.timestamp == e.timestamp
                && entry.1.id == e.id(),
            None => true,
        },
        m.pending.len() > 0 && m.pending[0].0 <= now ==> resolve(m, live, now) == resolve(
            resolve_one(m, live),
            live,
            now,
        ),
        m.pending.len() > 0 && m.pending[0].0 > now ==> resolve(m, live, now) == m,
{
}

/// Releasing takes samples off the front of the queue, adds at most as many
/// to the output, and keeps the queue ascending.
pub proof fn lemma_resolve_bounds(m: SamplerModel, live: StateView, now: i64)
    requires
        ascending(m.pending),
    ensures
        ascending(resolve(m, live, now).pending),
        resolve(m, live, now).pending.len() <= m.pending.len(),
        resolve(m, live, now).output.len() + resolve(m, live, now).pending.len() <= m.output.len()
            + m.pending.len(),
        resolve(m, live, now).output.len() >= m.output.len(),
        resolve(m, live, now).capacity == m.capacity,
        resolve(m, live, now).window == m.window,
        resolve(m, live, now).max_spread == m.max_spread,
        m.output.len() + m.pending.len() <= m.capacity ==> resolve_fits(m, live, now),
        forall|k: int|
            0 <= k < resolve(m, live, now).pending.len() ==> (#[trigger] resolve(
                m,
                live,
                now,
            ).pending[k]).0 > now,
    decreases m.pending.len(),
{
    if m.pending.len() > 0 && m.pending[0].0 <= now {
        let next = resolve_one(m, live);
        assert forall|i: int, j: int| 0 <= i <= j < next.pending.len() implies next.pending[i].0
            <= next.pending[j].0 by {
            assert(next.pending[i] == m.pending[i + 1] && next.pending[j] == m.pending[j + 1]);
        }
        lemma_resolve_bounds(next, live, now);
    } else {
        assert forall|k: int| 0 <= k < m.pending.len() implies (#[trigger] m.pending[k]).0
            > now by {
            assert(m.pending[0].0 <= m.pending[k].0);
        }
    }
}

/// The sampler.
pub struct Sampler {
    window: u64,
    max_spread: u64,
    forward_sample_queue: VecDeque<(i128, SampleData)>,
    output: ActorBuffer<SampleData>,
}

impl View for Sampler {
    type V = SamplerModel;

    closed spec fn view(&self) -> SamplerModel {
        SamplerModel {
            window: self.window,
            max_spread: self.max_spread,
            pending: self.forward_sample_queue@,
            output: self.output@,
            capacity: self.output.capacity(),
        }
    }
}

impl Sampler {
    /// Validity: the output buffer is well-formed and the pending samples
    /// are in ascending order of release time.
    pub closed spec fn wf(&self) -> bool {
        &&& self.output.wf()
        &&& ascending(self.forward_sample_queue@)
    }

    /// The sampler's view agrees with its output buffer, its pending
    /// samples are in ascending order of release, and the sampler is valid as
    /// a producer exactly when it is well-formed.
    pub proof fn lemma_view(&self)
        ensures
            self@.output == self.output()@,
            self@.capacity == self.output().capacity(),
            self.wf() ==> self.output().wf() && ascending(self@.pending) && self.provider_inv()
                && self@.output.len() <= self@.capacity,
            self.provider_inv() ==> self.wf(),
    {
        if self.wf() {
            self.output.lemma_len();
        }
    }

    /// With another output buffer the sampler holds the same window,
    /// threshold and pending samples.
    pub proof fn lemma_with_output_view(&self, b: ActorBuffer<SampleData>)
        ensures
            self.with_output(b)@ == (SamplerModel {
                output: b@,
                capacity: b.capacity(),
                ..self@
            }),
            self.wf() && b.wf() ==> self.with_output(b).wf(),
    {
    }

    /// A sampler without samples, with an output buffer of the default
    /// capacity.  `window` is how long after enrollment a sample is
    /// resolved; `max_spread` is the largest spread, in ticks, at which a
    /// price is taken.
    pub fn new(window: u64, max_spread: u64) -> (s: Self)
        ensures
            s.wf(),
            s@ == (SamplerModel {
                window,
                max_spread,
                pending: Seq::empty(),
                output: Seq::empty(),
                capacity: crate::actor::DEFAULT_BUFFER_SIZE as nat,
            }),
    {
        Sampler {
            window,
            max_spread,
            forward_sample_queue: VecDeque::new(),
            output: ActorBuffer::new(),
        }
    }

    /// Whether the output buffer surely has room for `post_process`: it could
    /// take every pending sample.
    pub fn has_room(&self) -> (r: bool)
        requires
            self.wf(),
        ensures
            r == (self@.output.len() + self@.pending.len() <= self@.capacity),
            r ==> forall|live: StateView, now: i64| #[trigger] resolve_fits(self@, live, now),
    {
        proof {
            self.output.lemma_len();
            assert forall|live: StateView, now: i64|
                self@.output.len() + self@.pending.len() <= self@.capacity implies #[trigger] resolve_fits(
                self@,
                live,
                now,
            ) by {
                lemma_resolve_bounds(self@, live, now);
            }
        }
        self.forward_sample_queue.len() <= self.output.room()
    }

    /// The resolve step: finishes the samples that earlier events enrolled.
    /// Releases every pending sample due at the event's time, resolving it
    /// with the live mid-price or dropping it; returns whether a sample was
    /// resolved.  The step is run on an event before the caches ingest it, so
    /// that the live store is that of the previous event.
    pub fn post_process(&mut self, data: &DataPacket, market_data_cache: &MarketDataCache) -> (acted:
        bool)
        requires
            old(self).wf(),
            market_data_cache.wf(),
            resolve_fits(old(self)@, market_data_cache@.state, data.timestamp),
        ensures
            final(self).wf(),
            final(self)@ == resolve(old(self)@, market_data_cache@.state, data.timestamp),
            acted == (final(self)@.output.len() > old(self)@.output.len()),
    {
        let ghost start = self@;
        let ghost live = market_data_cache@.state;
        let now = data.timestamp;
        let state = market_data_cache.state_ref();
        let mut acted = false;
        loop
            invariant
                self.wf(),
                state@ == live,
                state.wf(),
                resolve(self@, live, now) == resolve(start, live, now),
                resolve_fits(self@, live, now),
                self@.output.len() >= start.output.len(),
                acted == (self@.output.len() > start.output.len()),
            ensures
                self.wf(),
                self@ == resolve(start, live, now),
                acted == (self@.output.len() > start.output.len()),
            decreases self.forward_sample_queue@.len(),
        {
            if self.forward_sample_queue.len() == 0 {
                break ;
            }
            if self.forward_sample_queue[0].0 > now as i128 {
                break ;
            }
            let ghost before = self@;
            proof {
                let next = resolve_one(before, live);
                assert forall|i: int, j: int|
                    0 <= i <= j < next.pending.len() implies next.pending[i].0
                    <= next.pending[j].0 by {
                    assert(next.pending[i] == before.pending[i + 1] && next.pending[j]
                        == before.pending[j + 1]);
                }
            }
            match self.forward_sample_queue.pop_front() {
                Some((_, mut sample)) => {
                    match state.get_contract(sample.id) {
                        Some(contract) => {
                            if contract.prices.spread_ticks() <= self.max_spread as i128 {
                                sample.forward_price = contract.prices.mid_price();
                                let pushed = self.output.push(sample);
                                assert(pushed.is_ok());
                                acted = true;
                            }
                        },
                        None => {},
                    }
                },
                None => {},
            }
            assert(self@.pending =~= before.pending.skip(1));
            assert(self@ == resolve_one(before, live));
        }
        acted
    }

    /// The enroll step: prepares a sample for the event.  Enrolls a pending
    /// sample, to be released one window after the event, if both stores know
    /// the event's contract with a spread within the threshold; returns
    /// whether it did.  The step is run on an event after the caches have
    /// ingested it.
    pub fn pre_process(
        &mut self,
        data: &DataPacket,
        market_data_cache: &MarketDataCache,
        delayed_market_data_cache: &DelayedMarketDataCache,
    ) -> (acted: bool)
        requires
            old(self).wf(),
            market_data_cache.wf(),
            delayed_market_data_cache.wf(),
        ensures
            final(self).wf(),
            final(self)@ == enroll(
                old(self)@,
                market_data_cache@.state,
                delayed_market_data_cache@.state,
                *data,
            ),
            acted == enrolled(
                market_data_cache@.state,
                delayed_market_data_cache@.state,
                *data,
                old(self)@.window,
                old(self)@.max_spread,
            ).is_some(),
    {
        let id = data.id_of();
        let live = market_data_cache.state_ref();
        let delayed = delayed_market_data_cache.state_ref();
        let back = match delayed.get_contract(id) {
            Some(contract) => {
                if contract.prices.spread_ticks() > self.max_spread as i128 {
                    return false;
                }
                contract.prices.mid_price()
            },
            None => {
                return false;
            },
        };
        let tick = match live.get_contract(id) {
            Some(contract) => {
                if contract.prices.spread_ticks() > self.max_spread as i128 {
                    return false;
                }
                contract.prices.mid_price()
            },
            None => {
                return false;
            },
        };
        let release: i128 = data.timestamp as i128 + self.window as i128;
        let entry = (
            release,
            SampleData {
                id,
                timestamp: data.timestamp,
                back_price: back,
                tick_price: tick,
                forward_price: 0,
            },
        );
        let ghost queue = self.forward_sample_queue@;
        let mut at: usize = self.forward_sample_queue.len();
        proof {
            assert(queue.take(queue.len() as int) =~= queue);
        }
        while at > 0 && self.forward_sample_queue[at - 1].0 > release
            invariant
                at <= queue.len(),
                queue == self.forward_sample_queue@,
                slot_for(queue, release) == slot_for(queue.take(at as int), release),
            decreases at,
        {
            proof {
                assert(queue.take(at as int).drop_last() =~= queue.take(at - 1));
            }
            at = at - 1;
        }
        proof {
            lemma_insert_ascending(queue, entry);
            if at > 0 {
                assert(queue.take(at as int).last() == queue[at - 1]);
            }
        }
        self.forward_sample_queue.insert(at, entry);
        true
    }
}

impl Provider<SampleData> for Sampler {
    open spec fn provider_inv(&self) -> bool {
        self.wf()
    }

    closed spec fn output(&self) -> ActorBuffer<SampleData> {
        self.output
    }

    closed spec fn with_output(&self, buf: ActorBuffer<SampleData>) -> Self {
        Sampler { output: buf, ..*self }
    }


    fn output_buffer(&mut self) -> (buf: &mut ActorBuffer<SampleData>) {
        &mut self.output
    }
}

/// What a sampling stage holds: the live cache, the delayed cache and the
/// sampler.
pub struct StageModel {
    pub live: CacheModel<DataPacket>,
    pub delayed: DelayedModel,
    pub sampler: SamplerModel,
}

/// The sampling stage after event `e`, step by step: the sampler releases
/// the samples that are due, against the live store as the previous event
/// left it; both caches ingest the event, and what they hand on is
/// discarded; the sampler enrolls a sample against the stores as they are
/// now.
pub open spec fn stage_next(m: StageModel, e: DataPacket) -> StageModel {
    let resolved = resolve(m.sampler, m.live.state, e.timestamp);
    let live = <MarketDataCache as Listener<DataPacket>>::next(m.live, e);
    let delayed = <DelayedMarketDataCache as Listener<DataPacket>>::next(m.delayed, e);
    StageModel {
        live: CacheModel { output: Seq::empty(), ..live },
        delayed: DelayedModel { output: Seq::empty(), ..delayed },
        sampler: enroll(resolved, live.state, delayed.state, e),
    }
}

/// Whether a sampling stage in state `m` can take event `e`: the sampler's
/// output has room for the samples it resolves, and the delayed cache can
/// hold one more event once it has released those that are due.
pub open spec fn stage_ready(m: StageModel, e: DataPacket) -> bool {
    &&& resolve_fits(m.sampler, m.live.state, e.timestamp)
    &&& release(m.delayed, e.timestamp).held.len() < m.delayed.held_capacity
}

/// Whether event `e` makes a sampling stage in state `m` resolve or enroll
/// a sample.
pub open spec fn stage_acts(m: StageModel, e: DataPacket) -> bool {
    let next = stage_next(m, e);
    let resolved = resolve(m.sampler, m.live.state, e.timestamp);
    ||| resolved.output.len() > m.sampler.output.len()
    ||| enrolled(next.live.state, next.delayed.state, e, m.sampler.window, m.sampler.max_spread).is_some()
}

/// The sampler together with the two caches it reads: a consumer of
/// canonical events and a producer of resolved samples.
pub struct SamplingStage {
    live: MarketDataCache,
    delayed: DelayedMarketDataCache,
    sampler: Sampler,
}

impl View for SamplingStage {
    type V = StageModel;

    closed spec fn view(&self) -> StageModel {
        StageModel { live: self.live@, delayed: self.delayed@, sampler: self.sampler@ }
    }
}

impl SamplingStage {
    /// Validity: the parts are valid, the caches' output buffers are empty,
    /// and each can take whatever one event makes its cache hand on.
    pub closed spec fn wf(&self) -> bool {
        &&& self.live.wf()
        &&& self.delayed.wf()
        &&& self.sampler.wf()
        &&& self.live@.output.len() == 0
        &&& self.live@.capacity > 0
        &&& self.delayed@.output.len() == 0
        &&& self.delayed@.held_capacity <= self.delayed@.capacity
    }

    /// The stage's view agrees with the sampler's output buffer, and the
    /// stage is valid in both of its roles exactly when it is well-formed.
    pub proof fn lemma_view(&self)
        ensures
            self@.sampler.output == self.output()@,
            self@.sampler.capacity == self.output().capacity(),
            self.wf() ==> self.output().wf() && self@.live.state.wf() && self@.delayed.state.wf()
                && ascending(self@.sampler.pending) && self@.live.output.len() == 0
                && self@.delayed.output.len() == 0,
            self.wf() <==> self.provider_inv(),
            self.wf() <==> self.listener_inv(),
    {
        self.sampler.lemma_view();
        self.live.lemma_view();
        self.delayed.lemma_view();
    }

    /// A stage with empty stores.  Samples are resolved `window` after
    /// enrollment, and the delayed cache lags by the same `window`; prices
    /// are taken at spreads of at most `max_spread` ticks; the delayed cache
    /// holds back at most `capacity` events.
    pub fn new(window: u64, max_spread: u64, capacity: usize) -> (s: Self)
        requires
            window > 0,
        ensures
            s.wf(),
            s@.live.state == StateView::empty(),
            s@.delayed.state == StateView::empty(),
            s@.delayed.held == Seq::<DataPacket>::empty(),
            s@.delayed.held_capacity == capacity,
            s@.delayed.delay == window,
            s@.sampler == (SamplerModel {
                window,
                max_spread,
                pending: Seq::empty(),
                output: Seq::empty(),
                capacity: crate::actor::DEFAULT_BUFFER_SIZE as nat,
            }),
    {
        SamplingStage {
            live: MarketDataCache::new(PIDataState::new()),
            delayed: DelayedMarketDataCache::new(PIDataState::new(), window, capacity),
            sampler: Sampler::new(window, max_spread),
        }
    }

    /// The live store.
    pub fn live_state(&self) -> (s: &PIDataState)
        requires
            self.wf(),
        ensures
            s@ == self@.live.state,
            s.wf(),
    {
        self.live.state_ref()
    }

    /// The delayed store.
    pub fn delayed_state(&self) -> (s: &PIDataState)
        requires
            self.wf(),
        ensures
            s@ == self@.delayed.state,
            s.wf(),
    {
        self.delayed.state_ref()
    }

    /// Hands over the warnings that the two caches raised since the last
    /// call: those of the live cache, then those of the delayed cache.
    pub fn take_warnings(&mut self) -> (w: Vec<StaleWarning>)
        requires
            old(self).wf(),
        ensures
            final(self).wf(),
            w@ == old(self)@.live.warnings + old(self)@.delayed.warnings,
            final(self)@ == (StageModel {
                live: CacheModel { warnings: Seq::empty(), ..old(self)@.live },
                delayed: DelayedModel { warnings: Seq::empty(), ..old(self)@.delayed },
                sampler: old(self)@.sampler,
            }),
    {
        let mut w = self.live.take_warnings();
        let mut more = self.delayed.take_warnings();
        w.append(&mut more);
        w
    }

    /// Whether the buffers surely have room for `process` to take `data`.
    pub fn has_room(&self, data: &DataPacket) -> (r: bool)
        requires
            self.wf(),
        ensures
            r == (self@.sampler.output.len() + self@.sampler.pending.len()
                <= self@.sampler.capacity && (self@.delayed.held.len() < self@.delayed.held_capacity
                || (self@.delayed.held.len() > 0 && crate::market_data::md_cache::is_due(
                self@.delayed.held[0].timestamp,
                data.timestamp,
                self@.delayed.delay,
            )))),
            r ==> stage_ready(self@, *data),
    {
        proof {
            self.delayed.lemma_view();
        }
        self.sampler.has_room() && self.delayed.has_room(data)
    }
}

impl Listener<DataPacket> for SamplingStage {
    type Model = StageModel;

    open spec fn listener_inv(&self) -> bool {
        self.wf()
    }

    open spec fn model(&self) -> StageModel {
        self@
    }

    open spec fn ready(m: StageModel, input: DataPacket) -> bool {
        stage_ready(m, input)
    }

    open spec fn next(m: StageModel, input: DataPacket) -> StageModel {
        stage_next(m, input)
    }

    open spec fn acts(m: StageModel, input: DataPacket) -> bool {
        stage_acts(m, input)
    }

    /// Runs the three steps on one event: resolve (`post_process`), update
    /// both caches, enroll (`pre_process`).
    fn process(&mut self, data: &DataPacket) -> (acted: bool) {
        let ghost start = self@;
        proof {
            self.live.lemma_view();
            self.delayed.lemma_view();
            self.sampler.lemma_view();
            lemma_release_bounds(start.delayed, data.timestamp);
            lemma_resolve_bounds(start.sampler, start.live.state, data.timestamp);
        }
        let resolved = self.sampler.post_process(data, &self.live);
        self.live.process(data);
        self.delayed.process(data);
        let enrolled = self.sampler.pre_process(data, &self.live, &self.delayed);
        let ghost live = self.live;
        let ghost delayed = self.delayed;
        proof {
            live.lemma_view();
            delayed.lemma_view();
        }
        drain_sink(&mut self.live);
        drain_sink(&mut self.delayed);
        proof {
            let emptied = self.live.output();
            live.lemma_with_output_view(emptied);
            self.live.lemma_with_output_view(emptied);
            assert(self.live.with_output(emptied) == live.with_output(emptied));
            let released = self.delayed.output();
            delayed.lemma_with_output_view(released);
            self.delayed.lemma_with_output_view(released);
            assert(self.delayed.with_output(released) == delayed.with_output(released));
            self.live.lemma_view();
            self.delayed.lemma_view();
            assert(self@.live == (CacheModel { output: Seq::empty(), ..live@ }));
            assert(self@.delayed == (DelayedModel { output: Seq::empty(), ..delayed@ }));
        }
        resolved || enrolled
    }
}

impl Provider<SampleData> for SamplingStage {
    open spec fn provider_inv(&self) -> bool {
        self.wf()
    }

    closed spec fn output(&self) -> ActorBuffer<SampleData> {
        self.sampler.output()
    }

    closed spec fn with_output(&self, buf: ActorBuffer<SampleData>) -> Self {
        SamplingStage { sampler: self.sampler.with_output(buf), ..*self }
    }


    fn output_buffer(&mut self) -> (buf: &mut ActorBuffer<SampleData>) {
        self.sampler.output_buffer()
    }
}

/// The fields of the line that writes a sample: contract, time, back
/// price, tick price and forward price.
pub open spec fn sample_fields(sample: SampleData) -> Seq<Seq<u8>> {
    seq![
        digits(sample.id as nat),
        crate::text::i64_text(sample.timestamp),
        price_text(sample.back_price),
        price_text(sample.tick_price),
        price_text(sample.forward_price),
    ]
}

impl SampleData {
    /// The fields of the line that writes the sample.
    pub fn csv_fields(&self) -> (fields: Vec<Vec<u8>>)
        ensures
            Seq::new(fields@.len(), |i: int| fields@[i]@) == sample_fields(*self),
    {
        let mut id: Vec<u8> = Vec::new();
        push_u64(&mut id, self.id);
        let mut timestamp: Vec<u8> = Vec::new();
        push_i64(&mut timestamp, self.timestamp);
        let mut back: Vec<u8> = Vec::new();
        push_price(&mut back, self.back_price);
        let mut tick: Vec<u8> = Vec::new();
        push_price(&mut tick, self.tick_price);
        let mut forward: Vec<u8> = Vec::new();
        push_price(&mut forward, self.forward_price);
        let mut fields: Vec<Vec<u8>> = Vec::new();
        fields.push(id);
        fields.push(timestamp);
        fields.push(back);
        fields.push(tick);
        fields.push(forward);
        assert(Seq::new(fields@.len(), |i: int| fields@[i]@) =~= sample_fields(*self));
        fields
    }
}

/// The window that a command line sets: the value in force of the argument
/// `sampler-window`, read as a number.
pub open spec fn window_of(p: Seq<ArgView>) -> Option<u64> {
    let k = position(p, "sampler-window"@);
    if k < p.len() {
        match p[k].value_in_force() {
            ArgValueView::Str(text) => u64_of(vstd::utf8::encode_utf8(text)),
            _ => None,
        }
    } else {
        None
    }
}

/// The declaration `parser` with the sampler's argument added: the
/// required value `sampler-window`.
pub fn register_args<'a>(parser: Parser<'a>) -> (p: Parser<'a>)
    requires
        parser.wf(),
        position(parser@, "sampler-window"@) == parser@.len(),
    ensures
        p.wf(),
        p@ == parser@.push(
            ArgView {
                name: "sampler-window"@,
                arg_type: crate::parser::ArgType::Value,
                default: ArgValueView::Unset,
                required: true,
                multiple: false,
                consumed: 0,
                value: ArgValueView::Unset,
            },
        ),
{
    parser.arg(Arg::with_name("sampler-window").takes_value().required())
}

/// The sampler's window as the parsed command line sets it.  Fails if the
/// argument is missing or is no number.
pub fn get_args(parser: &Parser) -> (r: Result<u64, String>)
    ensures
        match r {
            Ok(window) => window_of(parser@) == Some(window),
            Err(_) => window_of(parser@).is_none(),
        },
{
    let text = match parser.get_str_arg("sampler-window") {
        Ok(text) => text,
        Err(msg) => {
            return Err(msg);
        },
    };
    let bytes = text.as_bytes();
    assert(bytes@.subrange(0, bytes@.len() as int) =~= bytes@);
    match parse_u64(bytes, 0, bytes.len()) {
        Some(window) => Ok(window),
        None => Err(String::from_str("sampler-window is not a number: ").concat(text)),
    }
}

} // verus!
